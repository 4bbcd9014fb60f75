//! The surface that the cards are drawn on, and where each of them sits.
use vstd::prelude::*;

verus! {

/// The width of the surface and of every card, in logical pixels.
pub const NOTIF_WIDTH: u32 = 360;

/// The height of a card.
pub const CARD_H: u32 = 100;

/// The space between two cards.
pub const CARD_GAP: u32 = 8;

/// How many notifications are on screen at once. Beyond this they queue: a
/// notification only starts its timer once it is displayed, so a burst is read
/// in order rather than scrolling past unseen.
pub const MAX_VISIBLE: usize = 5;

/// The height of the surface. It is fixed when the surface is made, so there
/// is always room for a full stack; the unused part is left transparent.
pub const NOTIF_HEIGHT: u32 = MAX_VISIBLE as u32 * (CARD_H + CARD_GAP) - CARD_GAP;

/// The top edge of the card in slot `index`.
pub open spec fn slot_top(index: int) -> int {
    index * (CARD_H + CARD_GAP)
}

/// The top edge of the card in slot `index`.
pub fn top(index: usize) -> (y: i32)
    requires
        index < MAX_VISIBLE,
    ensures
        y == slot_top(index as int),
{
    index as i32 * (CARD_H + CARD_GAP) as i32
}

/// The region of the card in slot `index` that takes input: its left and top
/// edge, its width and its height.
pub open spec fn slot_region(index: int) -> (i32, i32, i32, i32) {
    (0, slot_top(index) as i32, NOTIF_WIDTH as i32, CARD_H as i32)
}

/// One region for each of `visible` cards.
pub fn card_regions(visible: usize) -> (regions: Vec<(i32, i32, i32, i32)>)
    requires
        visible <= MAX_VISIBLE,
    ensures
        regions@ == Seq::new(visible as nat, |i: int| slot_region(i)),
{
    let mut regions: Vec<(i32, i32, i32, i32)> = Vec::new();
    let mut i: usize = 0;
    while i < visible
        invariant
            i <= visible <= MAX_VISIBLE,
            regions@ == Seq::new(i as nat, |j: int| slot_region(j)),
        decreases visible - i,
    {
        regions.push((0, top(i), NOTIF_WIDTH as i32, CARD_H as i32));
        i = i + 1;
    }
    regions
}

/// Every slot lies on the surface.
pub proof fn slots_lie_on_the_surface(i: int)
    requires
        0 <= i < MAX_VISIBLE,
    ensures
        0 <= slot_region(i).0,
        slot_region(i).0 + slot_region(i).2 <= NOTIF_WIDTH,
        0 <= slot_region(i).1,
        slot_region(i).1 + slot_region(i).3 <= NOTIF_HEIGHT,
{
    assert(NOTIF_HEIGHT == 532) by (nonlinear_arith);
}

/// Slots are stacked downwards with a gap, in which nothing takes input,
/// between each and the next.
pub proof fn slots_keep_their_distance(i: int, j: int)
    requires
        0 <= i < j < MAX_VISIBLE,
    ensures
        slot_region(i).1 + slot_region(i).3 + CARD_GAP <= slot_region(j).1,
{
}

/// What the window system is told of the window.
pub struct WindowSettings {
    pub title: String,
    pub app_id: String,
    pub width: u32,
    pub height: u32,
    pub fullscreen: bool,
    pub min_size: Option<(u32, u32)>,
}

/// The settings of the notification window.
pub fn window_settings() -> (s: WindowSettings)
    ensures
        s.title@ == "cce-notifier"@,
        s.app_id@ == "cce-notifier"@,
        s.width == NOTIF_WIDTH,
        s.height == NOTIF_HEIGHT,
        !s.fullscreen,
        s.min_size is None,
{
    WindowSettings {
        title: "cce-notifier".to_string(),
        app_id: "cce-notifier".to_string(),
        width: NOTIF_WIDTH,
        height: NOTIF_HEIGHT,
        fullscreen: false,
        min_size: None,
    }
}

/// How far apart the bar lays out its segments, and how far from the edge of
/// the output.
pub const BAR_SPACING: i32 = 12;

/// Which layer the surface is on: above everything else.
#[derive(Clone, Copy, Debug, PartialEq, Eq, Structural)]
pub enum LayerKind {
    Overlay,
}

/// Which corner of the output the surface keeps to.
#[derive(Clone, Copy, Debug, PartialEq, Eq, Structural)]
pub enum LayerAnchor {
    TopRight,
}

/// When the surface takes keyboard input.
#[derive(Clone, Copy, Debug, PartialEq, Eq, Structural)]
pub enum LayerKeyboardInteractivity {
    Never,
}

/// How the surface is layered. No space is reserved for it.
pub struct LayerSettings {
    pub layer: LayerKind,
    pub anchor: LayerAnchor,
    pub exclusive_zone: i32,
    pub keyboard_interactivity: LayerKeyboardInteractivity,
    /// Top, right, bottom and left.
    pub margin: (i32, i32, i32, i32),
    pub namespace: String,
}

/// The number that the low 32 bits of `v` stand for.
pub open spec fn low_bits(v: int) -> int {
    let m: int = v % 0x1_0000_0000;
    if m < 0x8000_0000 {
        m
    } else {
        m - 0x1_0000_0000
    }
}

/// The layer of the surface below a status bar of the configured height: one
/// spacing away from the bar, its right edge in line with the bar's. The window
/// system takes margins of 32 bits, so only the low bits of the height count.
pub fn layer_settings(bar_height: i64) -> (s: LayerSettings)
    ensures
        s.layer == LayerKind::Overlay,
        s.anchor == LayerAnchor::TopRight,
        s.exclusive_zone == 0,
        s.keyboard_interactivity == LayerKeyboardInteractivity::Never,
        s.margin == (
            low_bits(bar_height + BAR_SPACING) as i32,
            BAR_SPACING,
            0i32,
            0i32,
        ),
        s.namespace@ == "cce-notifier"@,
{
    let height: i32 = bar_height as i32;
    proof {
        lemma_low_bits(bar_height);
    }
    LayerSettings {
        layer: LayerKind::Overlay,
        anchor: LayerAnchor::TopRight,
        exclusive_zone: 0,
        keyboard_interactivity: LayerKeyboardInteractivity::Never,
        margin: (height.wrapping_add(BAR_SPACING), BAR_SPACING, 0, 0),
        namespace: "cce-notifier".to_string(),
    }
}

/// What a cast to 32 bits keeps.
proof fn lemma_low_bits(v: i64)
    ensures
        (v as i32) == low_bits(v as int),
{
    assert((v as i32) as int == {
        let m = (v as u64) % 0x1_0000_0000;
        if m < 0x8000_0000 {
            m as int
        } else {
            m - 0x1_0000_0000
        }
    }) by (bit_vector);
    assert(v >= 0 ==> v as u64 == v) by (bit_vector);
    assert(v < 0 ==> v as u64 == v + 0x1_0000_0000_0000_0000) by (bit_vector);
    if v < 0 {
        vstd::arithmetic::div_mod::lemma_mod_multiples_vanish(
            0x1_0000_0000,
            v as int,
            0x1_0000_0000,
        );
    }
}

/// Every slot is as wide as the surface and as high as a card; the first is at
/// the top, and each starts one card and one gap below the one before.
pub proof fn slots_go_down_from_the_top(i: int)
    requires
        0 <= i < MAX_VISIBLE,
    ensures
        slot_region(i).0 == 0,
        slot_region(i).1 == i * 108,
        slot_region(i).2 == 360,
        slot_region(i).3 == 100,
        slot_top(i) == slot_region(i).1,
        i == 0 ==> slot_top(i) == 0,
        i > 0 ==> slot_top(i) == slot_top(i - 1) + CARD_H + CARD_GAP,
{
    assert(i * 108 == (i - 1) * 108 + 108) by (nonlinear_arith);
}

/// The low bits of a number stand for the only number of 32 bits that differs
/// from it by a multiple of 2^32.
pub proof fn low_bits_are_the_number_of_its_class(v: int, r: int)
    ensures
        i32::MIN <= low_bits(v) <= i32::MAX,
        (low_bits(v) - v) % 0x1_0000_0000 == 0,
        i32::MIN <= v <= i32::MAX ==> low_bits(v) == v,
        i32::MIN <= r <= i32::MAX && (r - v) % 0x1_0000_0000 == 0 ==> r == low_bits(v),
{
}

} // verus!
