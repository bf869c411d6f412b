use pathtracer::integrator::{next_step, Event, PathEnd, Step, MAX_BOUNCES};

#[test]
fn escape_ends_in_sky() {
    assert_eq!(next_step(0, MAX_BOUNCES, Event::Missed), Step::End(PathEnd::Sky));
    assert_eq!(next_step(50, MAX_BOUNCES, Event::Missed), Step::End(PathEnd::Sky));
}

#[test]
fn absorption_ends_dark() {
    assert_eq!(next_step(3, MAX_BOUNCES, Event::Absorbed), Step::End(PathEnd::Dark));
}

#[test]
fn scatter_counts_a_bounce() {
    assert_eq!(next_step(0, MAX_BOUNCES, Event::Scattered), Step::Continue(1));
    assert_eq!(next_step(49, MAX_BOUNCES, Event::Scattered), Step::Continue(50));
}

#[test]
fn scatter_over_the_cap_ends_dark() {
    assert_eq!(MAX_BOUNCES, 50);
    assert_eq!(next_step(50, MAX_BOUNCES, Event::Scattered), Step::End(PathEnd::Dark));
    assert_eq!(next_step(0, 0, Event::Scattered), Step::End(PathEnd::Dark));
}

fn run(events: &[Event], cap: u32) -> Option<PathEnd> {
    let mut bounces = 0;
    for &ev in events {
        match next_step(bounces, cap, ev) {
            Step::Continue(b) => bounces = b,
            Step::End(e) => return Some(e),
        }
    }
    None
}

#[test]
fn short_paths_do_not_feel_the_cap() {
    let mut events = vec![Event::Scattered; 5];
    events.push(Event::Missed);
    assert_eq!(run(&events, MAX_BOUNCES), Some(PathEnd::Sky));
    assert_eq!(run(&events, u32::MAX), Some(PathEnd::Sky));
    assert_eq!(run(&events, 5), Some(PathEnd::Sky));
    assert_eq!(run(&events, 4), Some(PathEnd::Dark));
}

#[test]
fn every_path_ends_within_the_cap() {
    let events = vec![Event::Scattered; 51];
    assert_eq!(run(&events, MAX_BOUNCES), Some(PathEnd::Dark));
    assert_eq!(run(&events[..50], MAX_BOUNCES), None);
}
