use cce_notifier::notifier::{Image, Notification, NotifierApp, UserEvent};
use cce_notifier::plate::{Color, PlateStyle};
use cce_notifier::single::Single;

fn single(x: f32) -> Single {
    Single { bits: x.to_bits() }
}

fn plate(radius: f32) -> PlateStyle {
    let fill = Color {
        red: single(0.1),
        green: single(0.2),
        blue: single(0.3),
        alpha: single(1.0),
    };
    PlateStyle { fill, border: None, radius: single(radius), blur: false, opacity: single(1.0) }
}

fn event(id: u32, summary: &str, seconds: f32) -> UserEvent {
    UserEvent::NewNotification {
        id,
        app_name: "app".to_string(),
        summary: summary.to_string(),
        body: "body".to_string(),
        image_path: None,
        duration: single(seconds),
    }
}

fn image(id: u32) -> Option<Image> {
    Some(Image { id, width: 10, height: 20 })
}

/// A stack of notifications with these ids and times, each with an image whose
/// id is a hundred more.
fn stacked(entries: &[(u32, f32)]) -> NotifierApp {
    let mut app = NotifierApp::new(plate(0.0));
    let mut rebuild = false;
    for (id, seconds) in entries {
        let freed = app.update(event(*id, "s", *seconds), image(100 + id), plate(0.0), &mut rebuild);
        assert_eq!(freed, None);
    }
    app
}

fn ids(app: &NotifierApp) -> Vec<u32> {
    app.stack.iter().map(|n: &Notification| n.id).collect()
}

fn left(app: &NotifierApp) -> Vec<f32> {
    app.stack.iter().map(|n| f32::from_bits(n.remaining.bits)).collect()
}

#[test]
fn starts_with_nothing() {
    let app = NotifierApp::new(plate(3.0));
    assert!(app.stack.is_empty());
    assert_eq!(app.plate.radius, single(3.0));
    assert_eq!(app.visible_count(), 0);
    assert_eq!(app.input_regions(), Some(vec![]));
}

#[test]
fn new_notification_goes_below_the_others() {
    let mut app = stacked(&[(1, 5.0), (2, 5.0)]);
    let mut rebuild = false;
    let freed = app.update(event(3, "third", 2.5), image(7), plate(9.0), &mut rebuild);
    assert_eq!(freed, None);
    assert!(rebuild);
    assert_eq!(ids(&app), vec![1, 2, 3]);
    let n = &app.stack[2];
    assert_eq!(n.app_name, "app");
    assert_eq!(n.summary, "third");
    assert_eq!(n.body, "body");
    assert_eq!(n.image, image(7));
    assert_eq!(n.remaining, single(2.5));
    assert_eq!(app.plate.radius, single(9.0));
}

#[test]
fn repeat_of_a_live_id_refreshes_in_place() {
    let mut app = stacked(&[(1, 5.0), (2, 5.0), (3, 5.0)]);
    let mut rebuild = false;
    let freed = app.update(event(2, "again", 4.0), image(7), plate(0.0), &mut rebuild);
    assert_eq!(freed, Some(102));
    assert!(rebuild);
    assert_eq!(ids(&app), vec![1, 2, 3]);
    assert_eq!(app.stack[1].summary, "again");
    assert_eq!(app.stack[1].image, image(7));
    assert_eq!(left(&app), vec![5.0, 4.0, 5.0]);
    // A card without an image has none to free.
    assert_eq!(app.update(event(2, "again", 4.0), None, plate(0.0), &mut rebuild), Some(7));
    assert_eq!(app.update(event(2, "again", 4.0), None, plate(0.0), &mut rebuild), None);
}

#[test]
fn closing_removes_the_card() {
    let mut app = stacked(&[(1, 5.0), (2, 5.0), (3, 5.0)]);
    let mut rebuild = false;
    let close = UserEvent::CloseNotification { id: 2 };
    assert_eq!(app.update(close, None, plate(8.0), &mut rebuild), Some(102));
    assert!(rebuild);
    assert_eq!(ids(&app), vec![1, 3]);
    assert_eq!(app.plate.radius, single(0.0));
}

#[test]
fn closing_what_is_not_there_changes_nothing() {
    let mut app = stacked(&[(1, 5.0)]);
    let mut rebuild = false;
    let close = UserEvent::CloseNotification { id: 2 };
    assert_eq!(app.update(close, None, plate(8.0), &mut rebuild), None);
    assert!(!rebuild);
    assert_eq!(ids(&app), vec![1]);
    // What was asked for before is still asked for.
    rebuild = true;
    let close = UserEvent::CloseNotification { id: 2 };
    app.update(close, None, plate(8.0), &mut rebuild);
    assert!(rebuild);
}

#[test]
fn only_displayed_cards_age() {
    let mut app =
        stacked(&[(1, 5.0), (2, 5.0), (3, 5.0), (4, 5.0), (5, 5.0), (6, 5.0), (7, 2.0)]);
    let mut rebuild = false;
    assert_eq!(app.visible_count(), 5);
    assert!(app.tick(single(0.25), &mut rebuild).is_empty());
    assert!(!rebuild);
    assert_eq!(left(&app), vec![4.75, 4.75, 4.75, 4.75, 4.75, 5.0, 2.0]);
}

#[test]
fn expired_cards_go_and_the_queue_moves_up() {
    let mut app =
        stacked(&[(1, 1.0), (2, 5.0), (3, 2.0), (4, 5.0), (5, 5.0), (6, 1.0), (7, 1.5)]);
    let mut rebuild = false;
    assert_eq!(app.tick(single(2.0), &mut rebuild), vec![101, 103]);
    assert!(rebuild);
    assert_eq!(ids(&app), vec![2, 4, 5, 6, 7]);
    assert_eq!(left(&app), vec![3.0, 3.0, 3.0, 1.0, 1.5]);
    // Those that waited start counting now.
    rebuild = false;
    assert_eq!(app.tick(single(1.0), &mut rebuild), vec![106]);
    assert!(rebuild);
    assert_eq!(ids(&app), vec![2, 4, 5, 7]);
    assert_eq!(left(&app), vec![2.0, 2.0, 2.0, 0.5]);
}

#[test]
fn time_passes_as_on_the_machine() {
    let mut app = stacked(&[(1, 5.0)]);
    let mut expected = 5.0f32;
    let mut rebuild = false;
    let dt = 0.016_666_668f32;
    let mut ticks = 0;
    while expected - dt > 0.0 {
        assert!(app.tick(single(dt), &mut rebuild).is_empty());
        expected -= dt;
        assert_eq!(left(&app), vec![expected]);
        ticks += 1;
    }
    assert!(ticks > 290);
    assert!(!rebuild);
    assert_eq!(app.tick(single(dt), &mut rebuild), vec![101]);
    assert!(rebuild);
}

#[test]
fn card_expires_when_its_time_is_up() {
    let mut rebuild = false;
    // Just more than passes, just as much, and just less.
    let mut app = stacked(&[(1, 1.000_000_1), (2, 1.0), (3, 0.999_999_94)]);
    assert_eq!(app.tick(single(1.0), &mut rebuild), vec![102, 103]);
    assert_eq!(ids(&app), vec![1]);
    // The smallest difference counts.
    let mut app = NotifierApp::new(plate(0.0));
    app.update(event(1, "s", f32::from_bits(0x0080_0001)), None, plate(0.0), &mut rebuild);
    assert!(app.tick(Single { bits: 0x0080_0000 }, &mut rebuild).is_empty());
    assert_eq!(app.stack[0].remaining, Single { bits: 1 });
}

#[test]
fn card_with_no_number_for_a_time_stays() {
    let mut app = stacked(&[(1, 5.0)]);
    let mut rebuild = false;
    assert!(app.tick(single(f32::NAN), &mut rebuild).is_empty());
    assert!(!rebuild);
    assert_eq!(ids(&app), vec![1]);
    assert!(left(&app)[0].is_nan());
}

#[test]
fn images_are_freed_once() {
    let mut app = stacked(&[(1, 1.0), (2, 2.0), (3, 3.0)]);
    let mut rebuild = false;
    let mut freed: Vec<u32> = Vec::new();
    freed.extend(app.update(event(2, "new", 1.0), image(202), plate(0.0), &mut rebuild));
    freed.extend(app.update(
        UserEvent::CloseNotification { id: 3 },
        None,
        plate(0.0),
        &mut rebuild,
    ));
    freed.extend(app.tick(single(1.0), &mut rebuild));
    freed.extend(app.tick(single(1.0), &mut rebuild));
    assert!(app.stack.is_empty());
    freed.sort();
    assert_eq!(freed, vec![101, 102, 103, 202]);
}

#[test]
fn regions_follow_the_displayed_cards() {
    let app = stacked(&[(1, 5.0), (2, 5.0)]);
    assert_eq!(app.input_regions(), Some(vec![(0, 0, 360, 100), (0, 108, 360, 100)]));
    let app = stacked(&[(1, 5.0), (2, 5.0), (3, 5.0), (4, 5.0), (5, 5.0), (6, 5.0)]);
    assert_eq!(
        app.input_regions(),
        Some(vec![
            (0, 0, 360, 100),
            (0, 108, 360, 100),
            (0, 216, 360, 100),
            (0, 324, 360, 100),
            (0, 432, 360, 100),
        ])
    );
}
