use cce_notifier::notifier::UserEvent;
use cce_notifier::server::{
    duration, get_capabilities, get_server_information, image_path, sound_event, Hint, HintValue,
    Server,
};
use cce_notifier::single::Single;

fn text(key: &str, value: &str) -> Hint {
    Hint { key: key.to_string(), value: HintValue::Str(value.to_string()) }
}

fn other(key: &str) -> Hint {
    Hint { key: key.to_string(), value: HintValue::Other }
}

fn path(hints: Vec<Hint>, icon: &str) -> Option<String> {
    image_path(&hints, &icon.to_string())
}

fn ask(server: &mut Server, replaces_id: u32) -> u32 {
    let (id, event) = server.notify(
        "app".to_string(),
        replaces_id,
        String::new(),
        "summary".to_string(),
        "body".to_string(),
        Vec::new(),
        -1,
        5,
    );
    match event {
        UserEvent::NewNotification { id: of_event, .. } => assert_eq!(of_event, id),
        UserEvent::CloseNotification { .. } => panic!("a new notification was asked for"),
    }
    id
}

#[test]
fn server_counts_from_one() {
    let mut server = Server::new();
    assert_eq!(ask(&mut server, 0), 1);
    assert_eq!(ask(&mut server, 0), 2);
    assert_eq!(ask(&mut server, 0), 3);
}

#[test]
fn chosen_id_is_honored_and_avoided() {
    let mut server = Server::new();
    assert_eq!(ask(&mut server, 0), 1);
    assert_eq!(ask(&mut server, 7), 7);
    assert_eq!(ask(&mut server, 0), 8);
    // A choice below the counter does not take it back.
    assert_eq!(ask(&mut server, 3), 3);
    assert_eq!(ask(&mut server, 0), 9);
}

#[test]
fn own_ids_are_fresh() {
    let mut server = Server::new();
    let mut issued: Vec<u32> = Vec::new();
    for request in [0, 4, 0, 0, 2, 0, 100, 0, 5, 0, 0] {
        let id = ask(&mut server, request);
        if request == 0 {
            assert!(!issued.contains(&id));
        } else {
            assert_eq!(id, request);
        }
        issued.push(id);
    }
}

#[test]
fn counter_starts_over_after_the_last_id() {
    let mut server = Server { next_id: u32::MAX };
    assert_eq!(ask(&mut server, 0), u32::MAX);
    assert_eq!(server.next_id, 0);
    let mut server = Server::new();
    assert_eq!(ask(&mut server, u32::MAX - 1), u32::MAX - 1);
    assert_eq!(server.next_id, u32::MAX);
}

#[test]
fn last_id_is_honored_and_leaves_the_counter() {
    let mut server = Server::new();
    assert_eq!(ask(&mut server, 4_294_967_295), 4_294_967_295);
    assert_eq!(server.next_id, 1);
    assert_eq!(ask(&mut server, 0), 1);
    // Only the last id can come a second time by the server's own choice.
    assert_eq!(ask(&mut server, 4_294_967_294), 4_294_967_294);
    assert_eq!(ask(&mut server, 0), 4_294_967_295);
}

#[test]
fn message_carries_what_was_asked_for() {
    let mut server = Server::new();
    let (id, event) = server.notify(
        "mail".to_string(),
        0,
        "/icon.png".to_string(),
        "two new".to_string(),
        "from afar".to_string(),
        vec![other("urgency"), text("image-path", "/shot.png")],
        2500,
        5,
    );
    match event {
        UserEvent::NewNotification { id: i, app_name, summary, body, image_path, duration } => {
            assert_eq!(i, id);
            assert_eq!(app_name, "mail");
            assert_eq!(summary, "two new");
            assert_eq!(body, "from afar");
            assert_eq!(image_path, Some("/shot.png".to_string()));
            assert_eq!(duration, Single { bits: 2.5f32.to_bits() });
        }
        UserEvent::CloseNotification { .. } => panic!("a new notification was asked for"),
    }
}

#[test]
fn durations_match_the_machine() {
    let mut ms: Vec<i32> = (-3..5000).collect();
    ms.extend([9_999, 16_777_217, 123_456_789, i32::MAX, i32::MIN]);
    for ms in ms {
        for configured in [-7i64, 0, 1, 5, 30, 16_777_217, i64::MAX, i64::MIN] {
            let expected = match ms {
                ms if ms > 0 => ms as f32 / 1000.0,
                _ => configured as f32,
            }
            .max(1.0);
            assert_eq!(duration(ms, configured).bits, expected.to_bits(), "{ms} {configured}");
        }
    }
}

#[test]
fn zero_and_negative_timeouts_take_the_default() {
    assert_eq!(duration(0, 5), Single { bits: 5.0f32.to_bits() });
    assert_eq!(duration(-1, 5), Single { bits: 5.0f32.to_bits() });
    assert_eq!(duration(7000, 5), Single { bits: 7.0f32.to_bits() });
}

#[test]
fn nothing_is_shown_for_less_than_a_second() {
    assert_eq!(duration(1, 5), Single { bits: 1.0f32.to_bits() });
    assert_eq!(duration(999, 5), Single { bits: 1.0f32.to_bits() });
    assert_eq!(duration(-1, -20), Single { bits: 1.0f32.to_bits() });
}

#[test]
fn preview_paths_in_their_order() {
    let both = || vec![text("image_path", "/old.png"), text("image-path", "/new.png")];
    assert_eq!(path(both(), "/icon.png"), Some("/new.png".to_string()));
    assert_eq!(
        path(vec![text("image_path", "/old.png")], "/icon.png"),
        Some("/old.png".to_string())
    );
    assert_eq!(path(vec![], "/icon.png"), Some("/icon.png".to_string()));
    assert_eq!(path(vec![], "mail-unread"), None);
    assert_eq!(path(vec![], ""), None);
}

#[test]
fn hint_that_is_not_a_string_is_passed_over() {
    let hints = vec![other("image-path"), text("image_path", "/old.png")];
    assert_eq!(path(hints, ""), Some("/old.png".to_string()));
    assert_eq!(path(vec![other("image-path")], "/icon.png"), Some("/icon.png".to_string()));
}

#[test]
fn order_of_hints_makes_no_difference() {
    let a = vec![text("image-path", "/a"), other("urgency"), text("image_path", "/b")];
    let b = vec![text("image_path", "/b"), text("image-path", "/a"), other("urgency")];
    assert_eq!(path(a, "/icon"), path(b, "/icon"));
}

#[test]
fn server_introduces_itself() {
    assert_eq!(get_capabilities(), vec!["body", "actions", "icon-static"]);
    let (name, vendor, version, service) = get_server_information();
    assert_eq!(name, "cce-notifier");
    assert_eq!(vendor, "CCEC Project");
    assert_eq!(version, "0.1.0");
    assert_eq!(service, "1.2");
}

#[test]
fn bells_and_their_sounds() {
    let sound = |bell: &str| sound_event(&bell.to_string());
    assert_eq!(sound("bell"), Some("bell".to_string()));
    assert_eq!(sound("dialog"), Some("dialog-information".to_string()));
    assert_eq!(sound("message"), Some("message".to_string()));
    assert_eq!(sound(""), None);
    assert_eq!(sound("Bell"), None);
}
