use server_utils::clock::now;
use server_utils::single_flight::{create_cached_fn, CacheConfig, SingleFlight};
use std::cell::Cell;
use std::rc::Rc;

const SECOND: u128 = 1_000_000_000;

fn pause(nanos: u128) {
    let start = now();
    while now() < start + nanos {
        std::hint::spin_loop();
    }
}

#[test]
fn value_is_served_for_max_age() {
    let mut cache: SingleFlight<u32> = SingleFlight::new(CacheConfig { max_age: 10 * SECOND });
    assert_eq!(cache.fresh_at(0), None);
    assert_eq!(cache.settle::<String>(100 * SECOND, Ok(7)), Ok(7));
    assert_eq!(cache.fresh_at(100 * SECOND), Some(7));
    assert_eq!(cache.fresh_at(105 * SECOND), Some(7));
    assert_eq!(cache.fresh_at(110 * SECOND), Some(7));
    assert_eq!(cache.fresh_at(110 * SECOND + 1), None);
    assert_eq!(cache.fresh_at(111 * SECOND), None);
}

#[test]
fn clock_that_went_back_is_not_fresh() {
    let mut cache: SingleFlight<u32> = SingleFlight::new(CacheConfig { max_age: 10 * SECOND });
    assert_eq!(cache.settle::<String>(100 * SECOND, Ok(7)), Ok(7));
    assert_eq!(cache.fresh_at(99 * SECOND), None);
}

#[test]
fn failure_is_not_cached() {
    let mut cache: SingleFlight<u32> = SingleFlight::new(CacheConfig { max_age: 10 * SECOND });
    assert_eq!(cache.settle(5, Err("down".to_string())), Err("down".to_string()));
    assert_eq!(cache.fresh_at(5), None);
    assert_eq!(cache.settle::<String>(6, Ok(1)), Ok(1));
    assert_eq!(cache.settle(8, Err("down".to_string())), Err("down".to_string()));
    assert_eq!(cache.fresh_at(8), Some(1));
    assert_eq!(cache.fresh_at(6 + 10 * SECOND), Some(1));
    assert_eq!(cache.fresh_at(8 + 10 * SECOND), None);
}

#[test]
fn refresh_replaces_the_value() {
    let mut cache: SingleFlight<u32> = SingleFlight::new(CacheConfig { max_age: 10 });
    assert_eq!(cache.settle::<String>(0, Ok(1)), Ok(1));
    assert_eq!(cache.settle::<String>(20, Ok(2)), Ok(2));
    assert_eq!(cache.fresh_at(25), Some(2));
    assert_eq!(cache.fresh_at(5), None);
}

#[test]
fn producer_runs_once_while_fresh() {
    let runs = Rc::new(Cell::new(0u32));
    let seen = runs.clone();
    let producer = move || -> Result<u32, String> {
        seen.set(seen.get() + 1);
        Ok(40 + seen.get())
    };
    let mut cached = create_cached_fn(producer, CacheConfig { max_age: 10 * SECOND });
    assert_eq!(cached.call(), Ok(41));
    assert_eq!(runs.get(), 1);
    for _ in 0..50 {
        assert_eq!(cached.call(), Ok(41));
    }
    assert_eq!(runs.get(), 1);
}

#[test]
fn producer_runs_again_when_stale() {
    let runs = Rc::new(Cell::new(0u32));
    let seen = runs.clone();
    let producer = move || -> Result<u32, String> {
        seen.set(seen.get() + 1);
        Ok(seen.get())
    };
    let mut cached = create_cached_fn(producer, CacheConfig { max_age: SECOND / 10 });
    assert_eq!(cached.call(), Ok(1));
    assert_eq!(cached.call(), Ok(1));
    pause(3 * SECOND / 20);
    assert_eq!(cached.call(), Ok(2));
    assert_eq!(cached.call(), Ok(2));
    assert_eq!(runs.get(), 2);
}

#[test]
fn failing_producer_is_tried_again() {
    let runs = Rc::new(Cell::new(0u32));
    let seen = runs.clone();
    let producer = move || -> Result<u32, String> {
        seen.set(seen.get() + 1);
        if seen.get() < 3 {
            Err(format!("attempt {}", seen.get()))
        } else {
            Ok(seen.get())
        }
    };
    let mut cached = create_cached_fn(producer, CacheConfig { max_age: 10 * SECOND });
    assert_eq!(cached.call(), Err("attempt 1".to_string()));
    assert_eq!(cached.call(), Err("attempt 2".to_string()));
    assert_eq!(cached.call(), Ok(3));
    assert_eq!(cached.call(), Ok(3));
    assert_eq!(runs.get(), 3);
}
