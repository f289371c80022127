use deck_playtime::schedule::{get_next_ts, Scheduler, Tick, Timer};

#[test]
fn next_ts_rounds_up_to_the_grid() {
    assert_eq!(get_next_ts(0, 125, 60), 180);
    assert_eq!(get_next_ts(0, 1, 60), 60);
    assert_eq!(get_next_ts(0, 59, 60), 60);
    assert_eq!(get_next_ts(0, 61, 60), 120);
    assert_eq!(get_next_ts(30, 100, 60), 150);
    assert_eq!(get_next_ts(7, 8, 1), 8);
}

#[test]
fn next_ts_keeps_a_grid_point() {
    assert_eq!(get_next_ts(0, 0, 60), 0);
    assert_eq!(get_next_ts(0, 120, 60), 120);
    assert_eq!(get_next_ts(30, 30, 60), 30);
    assert_eq!(get_next_ts(30, 90, 60), 90);
}

#[test]
fn next_ts_is_not_iterated() {
    // a distance that no loop over periods would get through in time
    assert_eq!(get_next_ts(0, 18_000_000_000_000_000_001, 7), 18_000_000_000_000_000_003);
    assert_eq!(get_next_ts(0, u64::MAX - 1, 2), u64::MAX - 1);
}

#[test]
fn timer_is_aligned_whenever_it_is_built() {
    for now in [0u64, 1, 59, 60, 61, 119, 1_700_000_000, 1_700_000_017, 1_700_000_040] {
        let mut timer = Timer::build_aligned(60, now);
        let mut clock = now;
        let mut fired = 0;
        while fired < 5 {
            match timer.check(clock) {
                Tick::Idle => {}
                Tick::Fired { skipped } => {
                    assert_eq!(clock % 60, 0, "fired off the grid at {clock}, built at {now}");
                    assert_eq!(skipped, 0);
                    fired += 1;
                }
            }
            clock += 1;
        }
    }
}

#[test]
fn timer_built_on_a_boundary_is_due_at_once() {
    let mut timer = Timer::build_aligned(60, 120);
    assert_eq!(timer.check(120), Tick::Fired { skipped: 0 });
    assert_eq!(timer.check(120), Tick::Idle);
    assert_eq!(timer.check(179), Tick::Idle);
    assert_eq!(timer.check(180), Tick::Fired { skipped: 0 });
}

#[test]
fn timer_coalesces_missed_deadlines() {
    let mut timer = Timer::build_aligned(60, 1);
    assert_eq!(timer.check(59), Tick::Idle);
    assert_eq!(timer.check(60), Tick::Fired { skipped: 0 });
    // five periods later, off the grid: 120 fires; 180, 240, 300 and 360 are dropped
    assert_eq!(timer.check(361), Tick::Fired { skipped: 4 });
    // and none of them is replayed
    assert_eq!(timer.check(361), Tick::Idle);
    assert_eq!(timer.check(419), Tick::Idle);
    assert_eq!(timer.check(420), Tick::Fired { skipped: 0 });
}

#[test]
fn timer_late_onto_a_boundary_fires_there_next() {
    let mut timer = Timer::build_aligned(60, 1);
    assert_eq!(timer.check(60), Tick::Fired { skipped: 0 });
    // 120 fires, 180 and 240 are dropped; 300 is the next deadline and is due
    assert_eq!(timer.check(300), Tick::Fired { skipped: 2 });
    assert_eq!(timer.check(300), Tick::Fired { skipped: 0 });
    assert_eq!(timer.check(300), Tick::Idle);
}

#[test]
fn timer_one_period_late_skips_nothing() {
    let mut timer = Timer::build_aligned(10, 5);
    assert_eq!(timer.check(19), Tick::Fired { skipped: 0 });
    assert_eq!(timer.check(20), Tick::Fired { skipped: 0 });
    assert_eq!(timer.check(29), Tick::Idle);
}

#[test]
fn scheduler_reports_the_earliest_deadline() {
    let scheduler = Scheduler::build_aligned(vec![60, 1, 7], 125);
    assert_eq!(scheduler.deadlines(), vec![180, 125, 126]);
    assert_eq!(scheduler.get_next_timestamp(), Some(125));
}

#[test]
fn scheduler_without_timers_has_no_deadline() {
    let mut scheduler = Scheduler::build_aligned(Vec::new(), 125);
    assert_eq!(scheduler.get_next_timestamp(), None);
    assert_eq!(scheduler.run_pending(126), Vec::<Tick>::new());
    assert_eq!(scheduler.get_next_timestamp(), None);
}

#[test]
fn scheduler_ticks_in_registration_order() {
    let mut scheduler = Scheduler::build_aligned(vec![60, 1, 1], 100);
    assert_eq!(
        scheduler.run_pending(100),
        vec![Tick::Idle, Tick::Fired { skipped: 0 }, Tick::Fired { skipped: 0 }]
    );
    assert_eq!(scheduler.get_next_timestamp(), Some(101));
    assert_eq!(
        scheduler.run_pending(120),
        vec![Tick::Fired { skipped: 0 }, Tick::Fired { skipped: 18 }, Tick::Fired { skipped: 18 }]
    );
    assert_eq!(scheduler.deadlines(), vec![180, 120, 120]);
    assert_eq!(scheduler.get_next_timestamp(), Some(120));
}

#[test]
fn scheduler_fires_each_timer_once_after_a_long_pause() {
    let mut scheduler = Scheduler::build_aligned(vec![60, 10], 1);
    assert_eq!(scheduler.get_next_timestamp(), Some(10));
    let ticks = scheduler.run_pending(60 + 5 * 60 + 3);
    assert_eq!(ticks, vec![Tick::Fired { skipped: 5 }, Tick::Fired { skipped: 35 }]);
    assert_eq!(scheduler.deadlines(), vec![420, 370]);
    assert_eq!(scheduler.get_next_timestamp(), Some(370));
    assert_eq!(scheduler.run_pending(364), vec![Tick::Idle, Tick::Idle]);
}

#[test]
fn scheduler_phase_does_not_depend_on_the_start() {
    let mut early = Scheduler::build_aligned(vec![60], 3);
    let mut late = Scheduler::build_aligned(vec![60], 47);
    for now in 47..400 {
        assert_eq!(early.run_pending(now), late.run_pending(now), "at {now}");
    }
}

#[test]
fn scheduler_tolerates_a_clock_that_stands_still() {
    let mut scheduler = Scheduler::build_aligned(vec![5], 1);
    assert_eq!(scheduler.run_pending(5), vec![Tick::Fired { skipped: 0 }]);
    assert_eq!(scheduler.run_pending(5), vec![Tick::Idle]);
    assert_eq!(scheduler.run_pending(4), vec![Tick::Idle]);
    assert_eq!(scheduler.get_next_timestamp(), Some(10));
}
