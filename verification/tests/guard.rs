use nom_recursive::guard::{
    adopt, arrive, enter, grow_seed, guard, leave, Entry, Grown, Guarded, Match,
};
use nom_recursive::{HasRecursiveInfo, RecursiveInfo};
use std::cell::Cell;

/// A cursor of the caller's own that carries the flags.
#[derive(Clone, Debug, PartialEq)]
struct Cursor {
    rest: &'static str,
    info: RecursiveInfo<&'static str>,
}

impl HasRecursiveInfo<&'static str> for Cursor {
    fn get_recursive_info(&self) -> RecursiveInfo<&'static str> {
        self.info.get_recursive_info()
    }

    fn set_recursive_info(mut self, info: RecursiveInfo<&'static str>) -> Self {
        self.info = self.info.set_recursive_info(info);
        self
    }
}

#[test]
fn own_cursor_carries_the_flags() {
    let cursor = Cursor { rest: "1+1", info: RecursiveInfo::new() };
    let mut info = cursor.get_recursive_info();
    assert_eq!(enter(&mut info, 4), Entry::Plain);
    let inside = cursor.clone().set_recursive_info(info);
    assert_eq!(inside.rest, "1+1");
    assert!(inside.get_recursive_info().check_flag(4));
    assert!(!cursor.get_recursive_info().check_flag(4));
    let mut again = inside.get_recursive_info();
    assert_eq!(enter(&mut again, 4), Entry::Reentrant);
    let mut out = inside.get_recursive_info();
    leave(&mut out, 4);
    assert_eq!(inside.set_recursive_info(out), cursor);
}

#[test]
fn arrive_clears_the_flags_of_another_position() {
    let mut info: RecursiveInfo<&str> = RecursiveInfo::new();
    arrive(&mut info, true, "1+1");
    assert_eq!(info.get_copy(), "1+1");
    info.set_flag(2);
    info.set_flag(33);
    let before = info;
    arrive(&mut info, false, "ignored");
    assert_eq!(info, before);
    arrive(&mut info, true, "+1");
    assert_eq!(info.get_copy(), "+1");
    for id in 0..64usize {
        assert!(!info.check_flag(id));
    }
}

#[test]
fn enter_reports_and_sets_the_flag() {
    let mut info: RecursiveInfo<u8> = RecursiveInfo::new();
    info.set_copy(7);
    assert_eq!(enter(&mut info, 9), Entry::Plain);
    assert!(info.check_flag(9));
    assert_eq!(enter(&mut info, 9), Entry::Reentrant);
    assert!(info.check_flag(9));
    assert_eq!(enter(&mut info, 10), Entry::Plain);
    assert_eq!(info.get_copy(), 7);
}

#[test]
fn leave_restores_the_flags_of_the_entry() {
    let mut info: RecursiveInfo<u8> = RecursiveInfo::new();
    info.set_flag(1);
    let before = info;
    assert_eq!(enter(&mut info, 2), Entry::Plain);
    assert_ne!(info, before);
    leave(&mut info, 2);
    assert_eq!(info, before);
}

#[test]
fn nested_frames_restore_the_flags() {
    let mut info: RecursiveInfo<u8> = RecursiveInfo::new();
    info.set_flag(60);
    let before = info;
    for id in [3usize, 8, 21] {
        assert_eq!(enter(&mut info, id), Entry::Plain);
    }
    for id in [21usize, 8, 3] {
        leave(&mut info, id);
    }
    assert_eq!(info, before);
}

#[test]
fn adopt_takes_only_what_grows() {
    let mut best: Option<Match<char>> = None;
    assert!(!adopt(&mut best, None, 5));
    assert!(best.is_none());
    assert!(!adopt(&mut best, Some(Match { consumed: 0, value: 'a' }), 5));
    assert_eq!(best.as_ref().map(|m| (m.consumed, m.value)), Some((0, 'a')));
    assert!(!adopt(&mut best, Some(Match { consumed: 0, value: 'x' }), 5));
    assert_eq!(best.as_ref().map(|m| (m.consumed, m.value)), Some((0, 'a')));
    assert!(adopt(&mut best, Some(Match { consumed: 1, value: 'b' }), 5));
    assert_eq!(best.as_ref().map(|m| (m.consumed, m.value)), Some((1, 'b')));
    assert!(!adopt(&mut best, Some(Match { consumed: 1, value: 'c' }), 5));
    assert_eq!(best.as_ref().map(|m| (m.consumed, m.value)), Some((1, 'b')));
    assert!(adopt(&mut best, Some(Match { consumed: 5, value: 'd' }), 5));
    assert!(!adopt(&mut best, Some(Match { consumed: 3, value: 'e' }), 5));
    assert!(!adopt(&mut best, None, 5));
    assert_eq!(best.as_ref().map(|m| (m.consumed, m.value)), Some((5, 'd')));
}

#[test]
fn adopt_refuses_more_than_the_input() {
    let mut best: Option<Match<char>> = None;
    assert!(!adopt(&mut best, Some(Match { consumed: 6, value: 'a' }), 5));
    assert!(best.is_none());
}

#[test]
fn grow_seed_stops_when_nothing_grows() {
    let calls = Cell::new(0usize);
    let grown = grow_seed(
        |_start: &(), best: &Option<Match<usize>>| {
            calls.set(calls.get() + 1);
            let so_far = best.as_ref().map(|m| m.consumed).unwrap_or(0);
            if so_far < 6 {
                Some(Match { consumed: so_far + 2, value: calls.get() })
            } else {
                None
            }
        },
        &(),
        10,
    );
    assert_eq!(grown, Grown { best: Some(Match { consumed: 6, value: 3 }), growths: 3 });
    assert_eq!(calls.get(), 4);
}

#[test]
fn grow_seed_without_a_match_has_no_result() {
    let calls = Cell::new(0usize);
    let grown = grow_seed(
        |_start: &(), _best: &Option<Match<u8>>| {
            calls.set(calls.get() + 1);
            None
        },
        &(),
        10,
    );
    assert!(grown.best.is_none());
    assert_eq!(grown.growths, 0);
    assert_eq!(calls.get(), 1);
}

#[test]
fn grow_seed_ends_on_an_insatiable_body() {
    let calls = Cell::new(0usize);
    let grown = grow_seed(
        |_start: &(), best: &Option<Match<u8>>| {
            calls.set(calls.get() + 1);
            let so_far = best.as_ref().map(|m| m.consumed).unwrap_or(0);
            Some(Match { consumed: so_far + 1, value: 0 })
        },
        &(),
        4,
    );
    assert_eq!(grown.best.unwrap().consumed, 4);
    assert_eq!(grown.growths, 4);
    assert_eq!(calls.get(), 5);
}

#[test]
fn grow_seed_hands_the_start_to_every_attempt() {
    let grown = grow_seed(
        |start: &usize, best: &Option<Match<usize>>| {
            let so_far = best.as_ref().map(|m| m.consumed).unwrap_or(0);
            if so_far < *start {
                Some(Match { consumed: so_far + 1, value: *start })
            } else {
                None
            }
        },
        &3,
        10,
    );
    assert_eq!(grown, Grown { best: Some(Match { consumed: 3, value: 3 }), growths: 3 });
}

#[test]
fn guard_sets_the_flag_for_the_body_and_clears_it_in_the_result() {
    let mut info: RecursiveInfo<u8> = RecursiveInfo::new();
    info.set_flag(1);
    let seen = Cell::new(0usize);
    let guarded = guard(
        &mut info,
        5,
        false,
        0,
        3,
        |start: &RecursiveInfo<u8>, best: &Option<Match<(RecursiveInfo<u8>, char)>>| {
            assert!(start.check_flag(5));
            assert!(start.check_flag(1));
            seen.set(seen.get() + 1);
            match best {
                None => Some(Match { consumed: 2, value: (*start, 'a') }),
                Some(_) => None,
            }
        },
    );
    assert_eq!(seen.get(), 2);
    assert!(info.check_flag(5));
    assert!(info.check_flag(1));
    match guarded {
        Guarded::Grown(grown) => {
            assert_eq!(grown.growths, 1);
            let best = grown.best.unwrap();
            assert_eq!(best.consumed, 2);
            assert_eq!(best.value.1, 'a');
            assert!(!best.value.0.check_flag(5));
            assert!(best.value.0.check_flag(1));
        }
        Guarded::Reentered => panic!("the flag was clear"),
    }
}

#[test]
fn guard_does_not_evaluate_a_rule_that_is_entered_again() {
    let mut info: RecursiveInfo<u8> = RecursiveInfo::new();
    info.set_flag(5);
    info.set_copy(8);
    let seen = Cell::new(0usize);
    let guarded = guard(
        &mut info,
        5,
        false,
        9,
        3,
        |_start: &RecursiveInfo<u8>, _best: &Option<Match<(RecursiveInfo<u8>, char)>>| {
            seen.set(seen.get() + 1);
            None
        },
    );
    assert_eq!(guarded, Guarded::Reentered);
    assert_eq!(seen.get(), 0);
    assert!(info.check_flag(5));
    assert_eq!(info.get_copy(), 8);
}

#[test]
fn guard_at_a_new_position_starts_without_flags() {
    let mut info: RecursiveInfo<u8> = RecursiveInfo::new();
    info.set_flag(5);
    info.set_flag(6);
    info.set_copy(8);
    let guarded = guard(
        &mut info,
        5,
        true,
        9,
        3,
        |start: &RecursiveInfo<u8>, _best: &Option<Match<(RecursiveInfo<u8>, char)>>| {
            assert!(start.check_flag(5));
            assert!(!start.check_flag(6));
            assert_eq!(start.get_copy(), 9);
            None
        },
    );
    assert_eq!(guarded, Guarded::Grown(Grown { best: None, growths: 0 }));
    assert!(info.check_flag(5));
    assert!(!info.check_flag(6));
    assert_eq!(info.get_copy(), 9);
}

#[test]
fn adopt_keeps_a_first_match_that_consumed_nothing() {
    let mut best: Option<Match<char>> = None;
    assert!(!adopt(&mut best, Some(Match { consumed: 0, value: 'a' }), 0));
    assert_eq!(best, Some(Match { consumed: 0, value: 'a' }));
    assert!(!adopt(&mut best, None, 0));
    assert_eq!(best, Some(Match { consumed: 0, value: 'a' }));
}

#[test]
fn grow_seed_keeps_a_match_that_consumed_nothing() {
    let calls = Cell::new(0usize);
    let grown = grow_seed(
        |_start: &(), _best: &Option<Match<u8>>| {
            calls.set(calls.get() + 1);
            Some(Match { consumed: 0, value: 7 })
        },
        &(),
        10,
    );
    assert_eq!(grown, Grown { best: Some(Match { consumed: 0, value: 7 }), growths: 0 });
    assert_eq!(calls.get(), 1);
}

#[test]
fn guard_returns_a_match_that_consumed_nothing() {
    let mut info: RecursiveInfo<u8> = RecursiveInfo::new();
    let guarded = guard(
        &mut info,
        5,
        false,
        0,
        3,
        |start: &RecursiveInfo<u8>, _best: &Option<Match<(RecursiveInfo<u8>, char)>>| {
            Some(Match { consumed: 0, value: (*start, 'e') })
        },
    );
    match guarded {
        Guarded::Grown(grown) => {
            assert_eq!(grown.growths, 0);
            let best = grown.best.unwrap();
            assert_eq!(best.consumed, 0);
            assert_eq!(best.value.1, 'e');
            assert!(!best.value.0.check_flag(5));
        }
        Guarded::Reentered => panic!("the flag was clear"),
    }
}

#[test]
fn nested_call_at_the_same_position_is_reentrant() {
    let outer: RecursiveInfo<u8> = RecursiveInfo::new();
    let mut info = outer.get_recursive_info();
    info.set_flag(12);
    let inside = outer.set_recursive_info(info);
    assert!(inside.get_recursive_info().check_flag(12));
    let mut nested = inside.get_recursive_info();
    assert_eq!(enter(&mut nested, 12), Entry::Reentrant);
}
