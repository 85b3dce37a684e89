use std::cell::{Cell, RefCell};

use ascii_sdf::{cast_ray, decide, march, probe, Probe, Step, MAX_STEPS};

#[test]
fn decide_hits_on_a_surface_whatever_the_step() {
    assert!(matches!(decide::<u8>(0, Probe::Surface), Step::Hit));
    assert!(matches!(decide::<u8>(99, Probe::Surface), Step::Hit));
    assert!(matches!(decide::<u8>(u32::MAX, Probe::Surface), Step::Hit));
}

#[test]
fn decide_goes_on_while_range_and_budget_last() {
    match decide(0, Probe::Advance { next: 7u8, spent: false }) {
        Step::Continue(next) => assert_eq!(next, 7),
        _ => panic!("expected to go on"),
    }
    match decide(98, Probe::Advance { next: 9u8, spent: false }) {
        Step::Continue(next) => assert_eq!(next, 9),
        _ => panic!("expected to go on"),
    }
}

#[test]
fn decide_misses_once_the_range_is_spent() {
    assert!(matches!(decide(0, Probe::Advance { next: 1u8, spent: true }), Step::Miss));
    assert!(matches!(decide(50, Probe::Advance { next: 1u8, spent: true }), Step::Miss));
}

#[test]
fn decide_misses_on_the_last_step_of_the_budget() {
    assert_eq!(MAX_STEPS, 100);
    assert!(matches!(decide(99, Probe::Advance { next: 1u8, spent: false }), Step::Miss));
    assert!(matches!(decide(100, Probe::Advance { next: 1u8, spent: false }), Step::Miss));
    assert!(matches!(decide(u32::MAX, Probe::Advance { next: 1u8, spent: false }), Step::Miss));
}

#[test]
fn march_returns_the_start_when_it_lies_on_a_surface() {
    let probes = Cell::new(0u32);
    let probe = |_: &u32| {
        probes.set(probes.get() + 1);
        Probe::Surface
    };
    assert_eq!(march(41u32, &probe), Some(41));
    assert_eq!(probes.get(), 1);
}

#[test]
fn march_walks_to_the_first_surface_point() {
    let probe = |p: &u32| {
        if *p >= 3 {
            Probe::Surface
        } else {
            Probe::Advance { next: *p + 1, spent: false }
        }
    };
    assert_eq!(march(0u32, &probe), Some(3));
    assert_eq!(march(3u32, &probe), Some(3));
    assert_eq!(march(10u32, &probe), Some(10));
}

#[test]
fn march_gives_up_after_the_step_budget() {
    let probes = Cell::new(0u32);
    let probe = |p: &u32| {
        probes.set(probes.get() + 1);
        Probe::Advance { next: *p + 1, spent: false }
    };
    assert_eq!(march(0u32, &probe), None);
    assert_eq!(probes.get(), MAX_STEPS);
}

#[test]
fn march_reaches_a_surface_on_the_last_probe_of_the_budget() {
    let probe = |p: &u32| {
        if *p >= 99 {
            Probe::Surface
        } else {
            Probe::Advance { next: *p + 1, spent: false }
        }
    };
    assert_eq!(march(0u32, &probe), Some(99));
    let late = |p: &u32| {
        if *p >= 100 {
            Probe::Surface
        } else {
            Probe::Advance { next: *p + 1, spent: false }
        }
    };
    assert_eq!(march(0u32, &late), None);
}

#[test]
fn march_gives_up_when_the_range_is_spent() {
    let probes = Cell::new(0u32);
    let probe = |p: &u32| {
        probes.set(probes.get() + 1);
        Probe::Advance { next: *p + 1, spent: *p >= 4 }
    };
    assert_eq!(march(0u32, &probe), None);
    assert_eq!(probes.get(), 5);
}

#[test]
fn cast_ray_shades_the_point_reached() {
    let probe = |p: &u32| {
        if *p >= 3 {
            Probe::Surface
        } else {
            Probe::Advance { next: *p + 1, spent: false }
        }
    };
    let shade = |p: &u32| (*p as usize) * 2 + 1;
    assert_eq!(cast_ray(0u32, &probe, &shade), 7);
    assert_eq!(cast_ray(5u32, &probe, &shade), 11);
}

#[test]
fn cast_ray_is_dark_for_a_ray_that_finds_nothing() {
    let shaded = Cell::new(false);
    let probe = |p: &u32| Probe::Advance { next: *p + 1, spent: true };
    let shade = |_: &u32| {
        shaded.set(true);
        9usize
    };
    assert_eq!(cast_ray(0u32, &probe, &shade), 0);
    assert!(!shaded.get());
}

#[test]
fn probe_reports_the_surface_without_moving_on() {
    let asked = RefCell::new(Vec::new());
    let seen = probe(
        &10u32,
        &|at: &u32| {
            asked.borrow_mut().push(format!("distance {}", at));
            *at / 5
        },
        &|d: &u32| {
            asked.borrow_mut().push(format!("near {}", d));
            *d < 3
        },
        &|at: &u32, d: &u32| {
            asked.borrow_mut().push(format!("advance {} {}", at, d));
            *at + *d
        },
        &|at: &u32| {
            asked.borrow_mut().push(format!("spent {}", at));
            *at > 100
        },
    );
    assert!(matches!(seen, Probe::Surface));
    assert_eq!(*asked.borrow(), vec!["distance 10", "near 2"]);
}

#[test]
fn probe_moves_on_by_the_distance_found() {
    let asked = RefCell::new(Vec::new());
    let seen = probe(
        &40u32,
        &|at: &u32| {
            asked.borrow_mut().push(format!("distance {}", at));
            *at / 5
        },
        &|d: &u32| {
            asked.borrow_mut().push(format!("near {}", d));
            *d < 3
        },
        &|at: &u32, d: &u32| {
            asked.borrow_mut().push(format!("advance {} {}", at, d));
            *at + *d
        },
        &|at: &u32| {
            asked.borrow_mut().push(format!("spent {}", at));
            *at > 100
        },
    );
    match seen {
        Probe::Advance { next, spent } => {
            assert_eq!(next, 48);
            assert!(!spent);
        }
        Probe::Surface => panic!("expected the ray to move on"),
    }
    assert_eq!(*asked.borrow(), vec!["distance 40", "near 8", "advance 40 8", "spent 48"]);
}

#[test]
fn probe_tells_when_the_range_is_spent_after_the_move() {
    let seen = probe(
        &90u32,
        &|at: &u32| *at / 5,
        &|d: &u32| *d < 3,
        &|at: &u32, d: &u32| *at + *d,
        &|at: &u32| *at > 100,
    );
    match seen {
        Probe::Advance { next, spent } => {
            assert_eq!(next, 108);
            assert!(spent);
        }
        Probe::Surface => panic!("expected the ray to move on"),
    }
}

#[test]
fn march_over_probes_counts_down_to_the_surface() {
    let step = |at: &u32| {
        probe(
            at,
            &|at: &u32| *at,
            &|d: &u32| *d < 2,
            &|at: &u32, d: &u32| *at - *d / 2,
            &|_: &u32| false,
        )
    };
    // 40 -> 20 -> 10 -> 5 -> 3 -> 2 -> 1
    assert_eq!(march(40u32, &step), Some(1));
}
