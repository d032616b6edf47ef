use maths_appli_simulation::control::{DisplayState, HeadlessRun, RedrawPlan, TurnEnd};
use maths_appli_simulation::statistics::{count_categories, total_count, OpinionCounts};

#[test]
fn count_categories_counts_each_opinion() {
    let tab = vec![0u8, 2, 2, 1, 0, 2];
    assert_eq!(count_categories(&tab, 4), vec![2, 1, 3, 0]);
}

#[test]
fn counts_add_up_to_the_number_of_cells() {
    let tab: Vec<u8> = (0..100u32).map(|i| (i * 7 % 5) as u8).collect();
    let counts = count_categories(&tab, 5);
    assert_eq!(total_count(&counts), 100);
}

#[test]
fn opinion_counts_records_each_iteration() {
    let mut h = OpinionCounts::new(3);
    assert_eq!(h.history(), &vec![Vec::<u32>::new(); 3]);
    assert_eq!(h.record(&vec![0, 0, 1]), vec![2, 1, 0]);
    assert_eq!(h.record(&vec![2, 2, 2]), vec![0, 0, 3]);
    assert_eq!(h.history(), &vec![vec![2, 0], vec![1, 0], vec![0, 3]]);
}

#[test]
fn headless_run_saves_and_stops() {
    let mut run = HeadlessRun::new(Some(3), 2);
    assert!(run.begin_turn(0));
    assert_eq!(run.end_turn(1), TurnEnd::Continue);
    assert!(!run.begin_turn(1));
    assert_eq!(run.end_turn(2), TurnEnd::Continue);
    assert!(run.begin_turn(2));
    assert_eq!(run.end_turn(3), TurnEnd::Stop);
}

#[test]
fn headless_run_checks_the_keyboard_every_thousand_turns() {
    let mut run = HeadlessRun::new(None, 5);
    for i in 0..999u32 {
        run.begin_turn(i);
        assert_eq!(run.end_turn(i + 1), TurnEnd::Continue);
    }
    run.begin_turn(999);
    assert_eq!(run.end_turn(1000), TurnEnd::CheckKeyboard);
}

#[test]
fn display_state_paused_does_nothing() {
    let mut s = DisplayState::new(Some(2), 3);
    let plan = s.on_redraw(0);
    assert_eq!(plan, RedrawPlan { prepare: false, render: false, save: false, advance: false });
}

#[test]
fn display_state_first_redraw_draws_and_saves() {
    let mut s = DisplayState::new(Some(2), 3);
    s.toggle_running();
    assert_eq!(s.on_redraw(0), RedrawPlan { prepare: true, render: true, save: true, advance: false });
    assert_eq!(s.on_redraw(0), RedrawPlan { prepare: false, render: false, save: false, advance: true });
    assert_eq!(s.on_redraw(1), RedrawPlan { prepare: false, render: false, save: false, advance: true });
    assert_eq!(s.on_redraw(2), RedrawPlan { prepare: true, render: true, save: false, advance: true });
    assert_eq!(s.last_rendering_iteration, 2);
    assert_eq!(s.on_redraw(3), RedrawPlan { prepare: true, render: false, save: true, advance: true });
    assert_eq!(s.last_saving_iteration, 3);
    s.toggle_running();
    assert!(!s.running);
}

#[test]
fn display_state_at_a_frequency_draws_each_new_iteration() {
    let mut s = DisplayState::new(None, 10);
    s.toggle_running();
    s.on_redraw(0);
    assert_eq!(s.on_redraw(1), RedrawPlan { prepare: true, render: true, save: false, advance: true });
}

#[test]
fn display_state_saves_an_iteration_once() {
    // Only a save is due at iteration 3 (3 is no multiple of the display interval 2);
    // a second redraw at iteration 3 does not save again.
    let mut s = DisplayState::new(Some(2), 3);
    s.toggle_running();
    s.on_redraw(0);
    assert_eq!(s.on_redraw(3), RedrawPlan { prepare: true, render: false, save: true, advance: true });
    assert_eq!(s.on_redraw(3), RedrawPlan { prepare: false, render: false, save: false, advance: true });
}

#[test]
fn space_bar_pressed_three_times_runs() {
    let mut s = DisplayState::new(None, 1);
    for _ in 0..3 {
        s.toggle_running();
    }
    assert!(s.running);
    assert!(s.first_iteration);
}

#[test]
fn headless_run_with_no_iteration_does_no_step() {
    let run = HeadlessRun::new(Some(0), 1);
    assert!(run.limit_reached(0));
    let run = HeadlessRun::new(Some(2), 1);
    assert!(!run.limit_reached(1));
    assert!(run.limit_reached(2));
    assert!(!HeadlessRun::new(None, 1).limit_reached(u32::MAX));
}
