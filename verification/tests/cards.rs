use cce_notifier::card::{draw_card, Bounds, Ink, Paint, Rect};
use cce_notifier::notifier::{Image, Notification, NotifierApp};
use cce_notifier::plate::{plate_style, srgb_u8, Color, PlateSettings, PlateStyle};
use cce_notifier::single::Single;
use cce_notifier::surface;

fn single(x: f32) -> Single {
    Single { bits: x.to_bits() }
}

fn color(red: f32, green: f32, blue: f32, alpha: f32) -> Color {
    Color { red: single(red), green: single(green), blue: single(blue), alpha: single(alpha) }
}

fn plate(radius: f32) -> PlateStyle {
    PlateStyle {
        fill: color(0.1, 0.2, 0.3, 0.75),
        border: None,
        radius: single(radius),
        blur: false,
        opacity: single(0.5),
    }
}

fn notification(image: Option<Image>) -> Notification {
    Notification {
        id: 1,
        app_name: "app".to_string(),
        summary: "summary".to_string(),
        body: "body".to_string(),
        image,
        remaining: single(5.0),
    }
}

fn settings() -> PlateSettings {
    PlateSettings {
        color: None,
        shared_color: None,
        default_color: color(0.0, 0.0, 0.0, 1.0),
        border_color: None,
        shared_border_color: None,
        border_thickness: single(2.0),
        corner_radius: single(12.0),
        blur: true,
        opacity: single(0.9),
    }
}

#[test]
fn plain_card() {
    let n = notification(None);
    let mut paints: Vec<Paint> = Vec::new();
    draw_card(&mut paints, &plate(12.0), &n, 216);
    assert_eq!(paints.len(), 5);
    let whole = Rect { x: 0, y: 216, width: 720, height: 200 };
    match &paints[0] {
        Paint::RoundedRect { rect, radius, rounded, fill } => {
            assert_eq!(*rect, whole);
            assert_eq!(*radius, single(12.0));
            assert!(*rounded);
            assert_eq!(*fill, color(0.1, 0.2, 0.3, 0.375));
        }
        _ => panic!("a filled plate comes first"),
    }
    match &paints[1] {
        Paint::ClippedQuad { clip, radius, quad, ink } => {
            assert_eq!(*clip, whole);
            assert_eq!(*radius, single(12.0));
            assert_eq!(*quad, Rect { x: 0, y: 216, width: 12, height: 200 });
            assert_eq!(*ink, Ink::ToggleOn);
        }
        _ => panic!("the accent comes next"),
    }
    match &paints[2] {
        Paint::Text { text, x, y, size, ink, bounds } => {
            assert_eq!(text.as_str(), "app");
            assert_eq!((*x, *y, *size), (36, 240, 10));
            assert_eq!(*ink, Ink::TextDim);
            assert_eq!(*bounds, Bounds { left: 36, top: 232, right: 692, bottom: 308 });
        }
        _ => panic!("the name is a line of text"),
    }
    match &paints[3] {
        Paint::Text { text, x, y, size, ink, bounds } => {
            assert_eq!(text.as_str(), "summary");
            assert_eq!((*x, *y, *size), (36, 272, 13));
            assert_eq!(*ink, Ink::TextHeader);
            assert_eq!(*bounds, Bounds { left: 36, top: 264, right: 692, bottom: 308 });
        }
        _ => panic!("the summary is a line of text"),
    }
    match &paints[4] {
        Paint::TextBox { text, x, y, size, ink, bounds, wrap_width, box_height } => {
            assert_eq!(text.as_str(), "body");
            assert_eq!((*x, *y, *size), (36, 308, 11));
            assert_eq!(*ink, Ink::TextFg);
            assert_eq!(*bounds, Bounds { left: 36, top: 308, right: 692, bottom: 404 });
            assert_eq!(*wrap_width, 656);
            assert_eq!(*box_height, 96);
        }
        _ => panic!("the body is wrapped into a box"),
    }
}

#[test]
fn body_box_admits_three_lines() {
    let n = notification(None);
    let mut paints: Vec<Paint> = Vec::new();
    draw_card(&mut paints, &plate(0.0), &n, 0);
    match &paints[4] {
        Paint::TextBox { size, box_height, .. } => {
            let line = *size as f32 * 1.4;
            let height = *box_height as f32 / 2.0;
            assert_eq!(height, 48.0);
            assert!(3.0 * line <= height);
            assert!(4.0 * line > height);
        }
        _ => panic!("the body is wrapped into a box"),
    }
}

#[test]
fn thumbnail_is_centered_and_pushes_the_text() {
    let n = notification(Some(Image { id: 9, width: 99, height: 56 }));
    let mut paints: Vec<Paint> = Vec::new();
    draw_card(&mut paints, &plate(0.0), &n, 0);
    assert_eq!(paints.len(), 6);
    match &paints[0] {
        Paint::RoundedRect { rounded, .. } => assert!(!*rounded),
        _ => panic!("a filled plate comes first"),
    }
    match &paints[2] {
        Paint::Image { id, rect } => {
            assert_eq!(*id, 9);
            // Half a pixel into its box, and 22 pixels into the card.
            assert_eq!(*rect, Rect { x: 29, y: 44, width: 198, height: 112 });
        }
        _ => panic!("the thumbnail comes before the text"),
    }
    for (i, paint) in paints.iter().enumerate().skip(3) {
        match paint {
            Paint::Text { x, bounds, .. } => {
                assert_eq!((*x, bounds.left, bounds.right), (252, 252, 692));
            }
            Paint::TextBox { x, bounds, wrap_width, .. } => {
                assert_eq!((*x, bounds.left, bounds.right), (252, 252, 692));
                assert_eq!(*wrap_width, 440);
            }
            _ => panic!("{i} is a label"),
        }
    }
}

#[test]
fn bordered_and_blurred_plate() {
    let n = notification(None);
    let mut style = plate(4.0);
    style.border = Some((color(1.0, 0.5, 0.25, 1.0), single(1.5)));
    style.blur = true;
    let mut paints: Vec<Paint> = Vec::new();
    draw_card(&mut paints, &style, &n, 0);
    match &paints[0] {
        Paint::Border { rect, radius, fill, border, thickness } => {
            assert_eq!(*rect, Rect { x: 0, y: 0, width: 720, height: 200 });
            assert_eq!(*radius, single(4.0));
            assert_eq!(*fill, color(0.1, 0.2, 0.3, -0.375));
            assert_eq!(*border, color(1.0, 0.5, 0.25, 1.0));
            assert_eq!(*thickness, single(1.5));
        }
        _ => panic!("a plate with a border comes first"),
    }
}

#[test]
fn frame_shows_the_displayed_cards() {
    let mut app = NotifierApp::new(plate(0.0));
    assert_eq!(app.display_list().len(), 0);
    for _ in 0..7 {
        app.stack.push(notification(None));
    }
    let paints = app.display_list();
    assert_eq!(paints.len(), 25);
    for slot in 0..5usize {
        match &paints[5 * slot] {
            Paint::RoundedRect { rect, .. } => {
                assert_eq!(rect.y, 2 * 108 * slot as i64);
                assert_eq!(rect.y, 2 * surface::top(slot) as i64);
            }
            _ => panic!("every card starts with its plate"),
        }
    }
}

#[test]
fn own_colors_come_before_shared_ones() {
    let (own, shared) = (color(1.0, 0.0, 0.0, 1.0), color(0.0, 1.0, 0.0, 1.0));
    let s = settings();
    let style = plate_style(&s);
    assert_eq!(style.fill, s.default_color);
    assert_eq!(style.border, None);
    assert_eq!(style.radius, single(12.0));
    assert!(style.blur);
    assert_eq!(style.opacity, single(0.9));
    let mut s = settings();
    s.shared_color = Some(shared);
    s.shared_border_color = Some(own);
    let style = plate_style(&s);
    assert_eq!(style.fill, shared);
    assert_eq!(style.border, Some((own, single(2.0))));
    s.color = Some(own);
    s.border_color = Some(shared);
    let style = plate_style(&s);
    assert_eq!(style.fill, own);
    assert_eq!(style.border, Some((shared, single(2.0))));
}

#[test]
fn border_needs_a_thickness() {
    for (thickness, there) in
        [(0.0, false), (-0.0, false), (-1.0, false), (f32::NAN, false), (0.5, true)]
    {
        let mut s = settings();
        s.border_color = Some(color(1.0, 1.0, 1.0, 1.0));
        s.border_thickness = single(thickness);
        assert_eq!(plate_style(&s).border.is_some(), there, "{thickness}");
    }
    let mut s = settings();
    s.border_color = Some(color(1.0, 1.0, 1.0, 1.0));
    s.border_thickness = single(f32::INFINITY);
    assert!(plate_style(&s).border.is_some());
}

#[test]
fn color_bytes_match_the_machine() {
    for i in 0..=2000 {
        let x = i as f32 / 1000.0 - 0.5;
        let expected = (x * 255.0) as u8;
        assert_eq!(srgb_u8(&color(x, x, x, 1.0)), (expected, expected, expected), "{x}");
    }
    assert_eq!(srgb_u8(&color(1.0, 0.0, f32::NAN, 1.0)), (255, 0, 0));
}

#[test]
fn surface_has_room_for_a_full_stack() {
    assert_eq!(surface::NOTIF_HEIGHT, 532);
    assert_eq!(surface::top(4) + surface::CARD_H as i32, 532);
    let s = surface::window_settings();
    assert_eq!(s.title, "cce-notifier");
    assert_eq!(s.app_id, "cce-notifier");
    assert_eq!((s.width, s.height), (360, 532));
    assert!(!s.fullscreen);
    assert_eq!(s.min_size, None);
}

#[test]
fn surface_keeps_below_the_bar() {
    let s = surface::layer_settings(24);
    assert_eq!(s.layer, surface::LayerKind::Overlay);
    assert_eq!(s.anchor, surface::LayerAnchor::TopRight);
    assert_eq!(s.exclusive_zone, 0);
    assert_eq!(s.keyboard_interactivity, surface::LayerKeyboardInteractivity::Never);
    assert_eq!(s.margin, (36, 12, 0, 0));
    assert_eq!(s.namespace, "cce-notifier");
    for height in [-1i64, 0x1_0000_0018, -0x1_0000_0018, 0x8000_0000, i64::MIN, i64::MAX] {
        assert_eq!(surface::layer_settings(height).margin.0, height as i32 + 12, "{height}");
    }
    for height in [0x7fff_fff3i64, 0x7fff_fff4, 0x7fff_ffff, 0x1_7fff_ffff] {
        let margin = (height as i32).wrapping_add(12);
        assert_eq!(surface::layer_settings(height).margin.0, margin, "{height}");
    }
    assert_eq!(surface::layer_settings(0x7fff_ffff).margin.0, -2_147_483_637);
}
