use server_utils::stream::{greedy_zip, GreedyZip, Polled};

type Out = Polled<(Option<u8>, Option<char>)>;

fn zip() -> GreedyZip<Vec<u8>, Vec<char>> {
    greedy_zip(vec![1, 2], vec!['a'])
}

#[test]
fn both_items_come_together() {
    let mut zip = zip();
    let out: Out = zip.poll_next(Polled::Ready(Some(1)), Polled::Ready(Some('a')));
    assert_eq!(out, Polled::Ready(Some((Some(1), Some('a')))));
}

#[test]
fn one_item_comes_alone() {
    let mut zip = zip();
    let out: Out = zip.poll_next(Polled::Ready(Some(1)), Polled::Pending);
    assert_eq!(out, Polled::Ready(Some((Some(1), None))));
    let out: Out = zip.poll_next(Polled::Pending, Polled::Ready(Some('a')));
    assert_eq!(out, Polled::Ready(Some((None, Some('a')))));
    let out: Out = zip.poll_next(Polled::Ready(None), Polled::Ready(Some('b')));
    assert_eq!(out, Polled::Ready(Some((None, Some('b')))));
    assert!(zip.is_first_done());
    assert!(!zip.is_second_done());
}

#[test]
fn nothing_at_hand_is_pending() {
    let mut zip = zip();
    let out: Out = zip.poll_next(Polled::Pending, Polled::Pending);
    assert_eq!(out, Polled::Pending);
    let out: Out = zip.poll_next(Polled::Ready(None), Polled::Pending);
    assert_eq!(out, Polled::Pending);
    assert!(zip.is_first_done());
}

#[test]
fn ends_when_both_sides_have_ended() {
    let mut zip = zip();
    let out: Out = zip.poll_next(Polled::Ready(None), Polled::Pending);
    assert_eq!(out, Polled::Pending);
    let out: Out = zip.poll_next(Polled::Pending, Polled::Ready(None));
    assert_eq!(out, Polled::Ready(None));
    assert!(zip.is_first_done() && zip.is_second_done());
}

#[test]
fn ended_side_stays_ended() {
    let mut zip = zip();
    let _: Out = zip.poll_next(Polled::Ready(None), Polled::Ready(None));
    let out: Out = zip.poll_next(Polled::Ready(Some(9)), Polled::Ready(Some('z')));
    assert_eq!(out, Polled::Ready(None));
}

#[test]
fn streams_can_be_reached() {
    let mut zip = zip();
    let (numbers, letters) = zip.get_mut();
    numbers.push(3);
    letters.clear();
    let (numbers, letters) = zip.get_mut();
    assert_eq!(numbers, &vec![1, 2, 3]);
    assert!(letters.is_empty());
}

#[test]
fn hint_combines_both_sides() {
    let mut zip = zip();
    assert_eq!(zip.size_hint((2, Some(5)), (3, Some(4))), (2, Some(9)));
    assert_eq!(zip.size_hint((3, Some(5)), (1, None)), (1, Some(5)));
    assert_eq!(zip.size_hint((3, None), (4, Some(7))), (3, Some(7)));
    assert_eq!(zip.size_hint((3, None), (4, None)), (3, None));
    assert_eq!(zip.size_hint((0, Some(usize::MAX)), (0, Some(1))), (0, None));
    assert_eq!(zip.size_hint((0, Some(usize::MAX - 1)), (0, Some(1))), (0, Some(usize::MAX)));
    let _: Out = zip.poll_next(Polled::Ready(None), Polled::Pending);
    assert_eq!(zip.size_hint((2, Some(5)), (3, Some(4))), (0, Some(4)));
}
