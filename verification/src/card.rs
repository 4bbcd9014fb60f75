//! Drawing: what is painted for each displayed card, in order.
//!
//! Lengths are counted in half logical pixels, so that what is centered comes
//! out whole.
use crate::notifier::{Image, Notification, NotifierApp};
use crate::plate::{Color, PlateStyle};
use crate::scaling::{THUMB_MAX_H, THUMB_MAX_W};
use crate::single::Single;
use crate::surface;
use crate::surface::{CARD_H, MAX_VISIBLE, NOTIF_WIDTH};
use vstd::prelude::*;

verus! {

/// The right and the bottom padding of the text column, and where the body
/// starts, in logical pixels. The body gets whatever is left of the card below.
pub const CARD_PAD: i64 = 14;

pub const CARD_PAD_B: i64 = 6;

pub const BODY_TOP: i64 = 46;

/// The width of the accent at the left edge.
pub const ACCENT_W: i64 = 6;

/// Where the text column starts without a thumbnail; where the thumbnail box
/// starts; and the space between the box and the text.
pub const TEXT_X: i64 = 18;

pub const THUMB_X: i64 = 14;

pub const THUMB_GAP: i64 = 12;

/// The font sizes of the three labels.
pub const APP_NAME_SIZE: u32 = 10;

pub const SUMMARY_SIZE: u32 = 13;

pub const BODY_SIZE: u32 = 11;

/// A rectangle, in half pixels.
#[derive(Clone, Copy, Debug, PartialEq, Eq, Structural)]
pub struct Rect {
    pub x: i64,
    pub y: i64,
    pub width: i64,
    pub height: i64,
}

/// What a text is cut off at: the four edges of a rectangle, in half pixels.
#[derive(Clone, Copy, Debug, PartialEq, Eq, Structural)]
pub struct Bounds {
    pub left: i64,
    pub top: i64,
    pub right: i64,
    pub bottom: i64,
}

/// The shared colors that a card uses.
#[derive(Clone, Copy, Debug, PartialEq, Eq, Structural)]
pub enum Ink {
    ToggleOn,
    TextDim,
    TextHeader,
    TextFg,
}

/// One thing to paint.
pub enum Paint<'a> {
    /// A filled rectangle with rounded corners and a border.
    Border { rect: Rect, radius: Single, fill: Color, border: Color, thickness: Single },
    /// A filled rectangle; `rounded` says whether its corners are.
    RoundedRect { rect: Rect, radius: Single, rounded: bool, fill: Color },
    /// A rectangle cut off at another one with rounded corners.
    ClippedQuad { clip: Rect, radius: Single, quad: Rect, ink: Ink },
    /// An uploaded image, opaque.
    Image { id: u32, rect: Rect },
    /// A line of text; its size in logical pixels.
    Text { text: &'a String, x: i64, y: i64, size: u32, ink: Ink, bounds: Bounds },
    /// A text wrapped into a box, from its top left.
    TextBox {
        text: &'a String,
        x: i64,
        y: i64,
        size: u32,
        ink: Ink,
        bounds: Bounds,
        wrap_width: i64,
        box_height: i64,
    },
}

/// The rectangle of the card whose top edge is at `top`.
pub open spec fn card_rect(top: int) -> Rect {
    Rect { x: 0, y: top as i64, width: (2 * NOTIF_WIDTH) as i64, height: (2 * CARD_H) as i64 }
}

/// The backplate: with its border, or filled only.
pub open spec fn plate_paint<'a>(plate: PlateStyle, top: int) -> Paint<'a> {
    match plate.border {
        Some((border, thickness)) => Paint::Border {
            rect: card_rect(top),
            radius: plate.radius,
            fill: plate.plate_fill(),
            border,
            thickness,
        },
        None => Paint::RoundedRect {
            rect: card_rect(top),
            radius: plate.radius,
            rounded: plate.radius.positive(),
            fill: plate.plate_fill(),
        },
    }
}

/// The accent along the left edge, inside the plate's corners.
pub open spec fn accent_paint<'a>(plate: PlateStyle, top: int) -> Paint<'a> {
    Paint::ClippedQuad {
        clip: card_rect(top),
        radius: plate.radius,
        quad: Rect { x: 0, y: top as i64, width: (2 * ACCENT_W) as i64, height: (2 * CARD_H) as i64 },
        ink: Ink::ToggleOn,
    }
}

/// The rectangle of a thumbnail: in the middle of its box from left to right,
/// and of the card from top to bottom.
pub open spec fn image_rect(image: Image, top: int) -> Rect {
    Rect {
        x: (2 * THUMB_X + (THUMB_MAX_W - image.width)) as i64,
        y: (top + (CARD_H - image.height)) as i64,
        width: (2 * image.width) as i64,
        height: (2 * image.height) as i64,
    }
}

/// Where the text column starts: a thumbnail pushes it to the right.
pub open spec fn text_left(n: Notification) -> int {
    if n.image is Some {
        2 * (THUMB_X + THUMB_MAX_W + THUMB_GAP)
    } else {
        2 * TEXT_X
    }
}

/// How wide the text column is: up to the right padding.
pub open spec fn text_width(n: Notification) -> int {
    2 * NOTIF_WIDTH - text_left(n) - 2 * CARD_PAD
}

/// The part of the text column between two heights, in logical pixels from the
/// top of the card.
pub open spec fn column(n: Notification, top: int, from: int, to: int) -> Bounds {
    Bounds {
        left: text_left(n) as i64,
        top: (top + 2 * from) as i64,
        right: (text_left(n) + text_width(n)) as i64,
        bottom: (top + 2 * to) as i64,
    }
}

/// The three labels.
pub open spec fn label_paints<'a>(n: &'a Notification, top: int) -> Seq<Paint<'a>> {
    let x = text_left(*n) as i64;
    seq![
        Paint::Text {
            text: &n.app_name,
            x,
            y: (top + 2 * 12) as i64,
            size: APP_NAME_SIZE,
            ink: Ink::TextDim,
            bounds: column(*n, top, 8, BODY_TOP as int),
        },
        Paint::Text {
            text: &n.summary,
            x,
            y: (top + 2 * 28) as i64,
            size: SUMMARY_SIZE,
            ink: Ink::TextHeader,
            bounds: column(*n, top, 24, BODY_TOP as int),
        },
        Paint::TextBox {
            text: &n.body,
            x,
            y: (top + 2 * BODY_TOP) as i64,
            size: BODY_SIZE,
            ink: Ink::TextFg,
            bounds: column(*n, top, BODY_TOP as int, CARD_H - CARD_PAD_B),
            wrap_width: text_width(*n) as i64,
            box_height: (2 * (CARD_H - BODY_TOP - CARD_PAD_B)) as i64,
        },
    ]
}

/// All that is painted for the card whose top edge is at `top`.
pub open spec fn card_paints<'a>(plate: PlateStyle, n: &'a Notification, top: int) -> Seq<
    Paint<'a>,
> {
    let back = seq![plate_paint(plate, top), accent_paint(plate, top)];
    let front = match n.image {
        Some(image) => back.push(Paint::Image { id: image.id, rect: image_rect(image, top) }),
        None => back,
    };
    front + label_paints(n, top)
}

/// Paints one card with its top edge at `top`, counted in half pixels.
/// Everything is offset from there, so a card's position in the stack is the
/// only thing that changes between slots.
pub fn draw_card<'a>(
    paints: &mut Vec<Paint<'a>>,
    plate: &PlateStyle,
    notification: &'a Notification,
    top: i64,
)
    requires
        i32::MIN <= top <= i32::MAX,
    ensures
        final(paints)@ == old(paints)@ + card_paints(*plate, notification, top as int),
{
    let ghost start: Seq<Paint<'a>> = paints@;
    let surface: Rect = Rect {
        x: 0,
        y: top,
        width: 2 * NOTIF_WIDTH as i64,
        height: 2 * CARD_H as i64,
    };
    let fill: Color = plate.card_fill();
    match plate.border {
        Some((border, thickness)) => {
            paints.push(
                Paint::Border { rect: surface, radius: plate.radius, fill, border, thickness },
            );
        },
        None => {
            let rounded: bool = plate.radius.is_positive();
            paints.push(
                Paint::RoundedRect { rect: surface, radius: plate.radius, rounded, fill },
            );
        },
    }
    paints.push(
        Paint::ClippedQuad {
            clip: surface,
            radius: plate.radius,
            quad: Rect { x: 0, y: top, width: 2 * ACCENT_W, height: 2 * CARD_H as i64 },
            ink: Ink::ToggleOn,
        },
    );
    let mut text_x: i64 = 2 * TEXT_X;
    if let Some(image) = notification.image {
        let rect: Rect = Rect {
            x: 2 * THUMB_X + (THUMB_MAX_W as i64 - image.width as i64),
            y: top + (CARD_H as i64 - image.height as i64),
            width: 2 * image.width as i64,
            height: 2 * image.height as i64,
        };
        paints.push(Paint::Image { id: image.id, rect });
        text_x = 2 * (THUMB_X + THUMB_MAX_W as i64 + THUMB_GAP);
    }
    let text_w: i64 = 2 * NOTIF_WIDTH as i64 - text_x - 2 * CARD_PAD;
    let right: i64 = text_x + text_w;
    let body_top: i64 = top + 2 * BODY_TOP;
    paints.push(
        Paint::Text {
            text: &notification.app_name,
            x: text_x,
            y: top + 2 * 12,
            size: APP_NAME_SIZE,
            ink: Ink::TextDim,
            bounds: Bounds { left: text_x, top: top + 2 * 8, right, bottom: body_top },
        },
    );
    paints.push(
        Paint::Text {
            text: &notification.summary,
            x: text_x,
            y: top + 2 * 28,
            size: SUMMARY_SIZE,
            ink: Ink::TextHeader,
            bounds: Bounds { left: text_x, top: top + 2 * 24, right, bottom: body_top },
        },
    );
    // The body word-wraps within the column. A card is a fixed height and
    // cannot grow to fit, so the box is what bounds it.
    paints.push(
        Paint::TextBox {
            text: &notification.body,
            x: text_x,
            y: body_top,
            size: BODY_SIZE,
            ink: Ink::TextFg,
            bounds: Bounds {
                left: text_x,
                top: body_top,
                right,
                bottom: top + 2 * (CARD_H as i64 - CARD_PAD_B),
            },
            wrap_width: text_w,
            box_height: 2 * (CARD_H as i64 - BODY_TOP - CARD_PAD_B),
        },
    );
    proof {
        assert(paints@ == start + card_paints(*plate, notification, top as int));
    }
}

/// All that is painted for the first `k` notifications of a stack.
pub open spec fn frame_paints(plate: PlateStyle, stack: Seq<Notification>, k: int) -> Seq<
    Paint<'static>,
>
    decreases k,
{
    if k <= 0 {
        Seq::empty()
    } else {
        frame_paints(plate, stack, k - 1) + card_paints(
            plate,
            &stack[k - 1],
            2 * surface::slot_top(k - 1),
        )
    }
}

impl NotifierApp {
    /// The whole frame: the displayed cards from the top down.
    pub fn display_list<'a>(&'a self) -> (paints: Vec<Paint<'a>>)
        ensures
            paints@ == frame_paints(
                self.plate,
                self.stack@,
                crate::notifier::displayed(self.stack@),
            ),
    {
        let mut paints: Vec<Paint<'a>> = Vec::new();
        let visible: usize = self.visible_count();
        let mut i: usize = 0;
        while i < visible
            invariant
                i <= visible <= MAX_VISIBLE,
                visible <= self.stack@.len(),
                paints@ == frame_paints(self.plate, self.stack@, i as int),
            decreases visible - i,
        {
            draw_card(&mut paints, &self.plate, &self.stack[i], 2 * surface::top(i) as i64);
            i = i + 1;
        }
        paints
    }
}

/// A card is drawn where its slot takes input.
pub proof fn card_is_drawn_on_its_slot(i: int)
    requires
        0 <= i < MAX_VISIBLE,
    ensures
        card_rect(2 * surface::slot_top(i)).x == 2 * surface::slot_region(i).0,
        card_rect(2 * surface::slot_top(i)).y == 2 * surface::slot_region(i).1,
        card_rect(2 * surface::slot_top(i)).width == 2 * surface::slot_region(i).2,
        card_rect(2 * surface::slot_top(i)).height == 2 * surface::slot_region(i).3,
{
}

/// What a paint is cut off at, where it is a text.
pub open spec fn bounds_of(paint: Paint) -> Option<Bounds> {
    match paint {
        Paint::Text { bounds, .. } => Some(bounds),
        Paint::TextBox { bounds, .. } => Some(bounds),
        _ => None,
    }
}

/// Every label of a card is bounded by the text column: right of the accent,
/// and of a thumbnail, and left of the right padding; inside the card from top
/// to bottom. The box of the body is just its bounds.
pub proof fn labels_stay_in_the_column(plate: PlateStyle, n: &Notification, top: int, i: int)
    requires
        i32::MIN <= top <= i32::MAX,
        0 <= i < card_paints(plate, n, top).len(),
    ensures
        bounds_of(card_paints(plate, n, top)[i]) matches Some(b) ==> {
            &&& 2 * ACCENT_W < b.left < b.right <= 2 * (NOTIF_WIDTH - CARD_PAD)
            &&& n.image is Some ==> 2 * (THUMB_X + THUMB_MAX_W) < b.left
            &&& top <= b.top < b.bottom <= top + 2 * (CARD_H - CARD_PAD_B)
        },
        card_paints(plate, n, top)[i] matches Paint::TextBox { bounds, wrap_width, box_height, .. }
            ==> {
            &&& wrap_width == bounds.right - bounds.left
            &&& box_height == bounds.bottom - bounds.top
        },
{
}

/// A thumbnail that fits its box lies inside the card, between the accent and
/// the text, and its margins in the box and in the card are the same on
/// opposite sides.
pub proof fn thumbnail_stays_in_its_box(image: Image, top: int)
    requires
        i32::MIN <= top <= i32::MAX,
        image.width <= THUMB_MAX_W,
        image.height <= THUMB_MAX_H,
    ensures
        ({
            let r = image_rect(image, top);
            &&& 2 * ACCENT_W < 2 * THUMB_X <= r.x
            &&& r.x + r.width <= 2 * (THUMB_X + THUMB_MAX_W)
            &&& top <= r.y
            &&& r.y + r.height <= top + 2 * CARD_H
            &&& r.x - 2 * THUMB_X == 2 * (THUMB_X + THUMB_MAX_W) - (r.x + r.width)
            &&& r.y - top == top + 2 * CARD_H - (r.y + r.height)
        }),
{
}

/// All that a card shows, with its top edge at `top`, in half pixels: the plate
/// over the whole of it, with the border of the style where it has one; the
/// accent along its left edge; the image, where there is one, in the middle of
/// its box; and below each other the name of the program, the summary and the
/// body, from the left edge of the text column to its right one.
pub proof fn card_shows_its_notification(plate: PlateStyle, n: &Notification, top: int)
    requires
        i32::MIN <= top <= i32::MAX,
    ensures
        ({
            let c = card_paints(plate, n, top);
            let o = if n.image is Some {
                1int
            } else {
                0int
            };
            let left = if n.image is Some {
                252int
            } else {
                36int
            };
            &&& c.len() == 5 + o
            &&& plate.border matches Some((color, thick)) ==> {
                &&& c[0] matches Paint::Border { rect, radius, fill, border, thickness }
                &&& rect.x == 0 && rect.y == top && rect.width == 720 && rect.height == 200
                &&& radius == plate.radius
                &&& fill == plate.plate_fill()
                &&& border == color
                &&& thickness == thick
            }
            &&& plate.border is None ==> {
                &&& c[0] matches Paint::RoundedRect { rect, radius, rounded, fill }
                &&& rect.x == 0 && rect.y == top && rect.width == 720 && rect.height == 200
                &&& radius == plate.radius
                &&& rounded == (!radius.is_nan() && radius.value() > 0)
                &&& fill == plate.plate_fill()
            }
            &&& c[1] matches Paint::ClippedQuad { clip, radius, quad, ink }
            &&& clip.x == 0 && clip.y == top && clip.width == 720 && clip.height == 200
            &&& radius == plate.radius
            &&& quad.x == 0 && quad.y == top && quad.width == 12 && quad.height == 200
            &&& ink == Ink::ToggleOn
            &&& n.image matches Some(image) ==> {
                &&& c[2] matches Paint::Image { id, rect }
                &&& id == image.id
                &&& rect.width == 2 * image.width
                &&& rect.height == 2 * image.height
                &&& 2 * rect.x + rect.width == 2 * 28 + 200
                &&& 2 * rect.y + rect.height == 2 * top + 200
            }
            &&& c[2 + o] matches Paint::Text { text, x, y, size, ink, bounds }
            &&& text == n.app_name
            &&& x == left && y == top + 24 && size == 10 && ink == Ink::TextDim
            &&& bounds.left == left && bounds.right == 692
            &&& bounds.top == top + 16 && bounds.bottom == top + 92
            &&& c[3 + o] matches Paint::Text { text, x, y, size, ink, bounds }
            &&& text == n.summary
            &&& x == left && y == top + 56 && size == 13 && ink == Ink::TextHeader
            &&& bounds.left == left && bounds.right == 692
            &&& bounds.top == top + 48 && bounds.bottom == top + 92
            &&& c[4 + o] matches Paint::TextBox {
                text,
                x,
                y,
                size,
                ink,
                bounds,
                wrap_width,
                box_height,
            }
            &&& text == n.body
            &&& x == left && y == top + 92 && size == 11 && ink == Ink::TextFg
            &&& bounds.left == left && bounds.right == 692
            &&& bounds.top == top + 92 && bounds.bottom == top + 188
            &&& wrap_width == 692 - left
            &&& box_height == 96
        }),
{
    crate::single::order_is_by_value(plate.radius, plate.radius);
}

/// The paints of the first cards come first.
proof fn lemma_frame_prefix(plate: PlateStyle, stack: Seq<Notification>, k: int, all: int)
    requires
        0 <= k <= all,
    ensures
        frame_paints(plate, stack, k).is_prefix_of(frame_paints(plate, stack, all)),
    decreases all - k,
{
    if k < all {
        lemma_frame_prefix(plate, stack, k, all - 1);
        let a: Seq<Paint<'static>> = frame_paints(plate, stack, k);
        let b: Seq<Paint<'static>> = frame_paints(plate, stack, all - 1);
        let c: Seq<Paint<'static>> = frame_paints(plate, stack, all);
        assert(c.subrange(0, a.len() as int) =~= b.subrange(0, a.len() as int));
    } else {
        let a: Seq<Paint<'static>> = frame_paints(plate, stack, k);
        assert(a.subrange(0, a.len() as int) =~= a);
    }
}

/// What is painted for the card in slot `k`, and where in the frame.
proof fn lemma_card_in_frame(plate: PlateStyle, stack: Seq<Notification>, k: int, all: int)
    requires
        0 <= k < all <= MAX_VISIBLE,
    ensures
        ({
            let s = frame_paints(plate, stack, k).len() as int;
            let card = card_paints(plate, &stack[k], 216 * k);
            let frame = frame_paints(plate, stack, all);
            &&& frame_paints(plate, stack, k + 1).len() == s + card.len() <= frame.len()
            &&& frame.subrange(s, s + card.len()) == card
        }),
{
    lemma_frame_prefix(plate, stack, k + 1, all);
    let a: Seq<Paint<'static>> = frame_paints(plate, stack, k);
    let b: Seq<Paint<'static>> = frame_paints(plate, stack, k + 1);
    let frame: Seq<Paint<'static>> = frame_paints(plate, stack, all);
    let card: Seq<Paint<'static>> = card_paints(plate, &stack[k], 216 * k);
    assert(2 * surface::slot_top(k) == 216 * k);
    assert(b == a + card);
    let s: int = a.len() as int;
    assert(frame.subrange(s, s + card.len()) =~= frame.subrange(0, b.len() as int).subrange(
        s,
        s + card.len(),
    ));
    assert(b.subrange(s, s + card.len()) =~= card);
}

/// A frame shows every displayed notification, and each in the slot of its own
/// place: after what was painted for those above come the plate on the
/// rectangle of the slot, the accent, its own image where it has one, and its
/// own name, summary and body; and nothing else is painted. `starts` tells
/// where the paints of each begin.
pub proof fn frame_shows_every_card_in_its_slot(plate: PlateStyle, stack: Seq<Notification>) -> (
starts: Seq<int>)
    ensures
        ({
            let shown = if stack.len() < MAX_VISIBLE {
                stack.len() as int
            } else {
                MAX_VISIBLE as int
            };
            let frame = frame_paints(plate, stack, crate::notifier::displayed(stack));
            &&& starts.len() == shown + 1
            &&& starts[0] == 0
            &&& starts[shown] == frame.len()
            &&& forall|k: int|
                0 <= k < shown ==> {
                    let o = if (#[trigger] stack[k]).image is Some {
                        1int
                    } else {
                        0int
                    };
                    let s = starts[k];
                    &&& 0 <= s < starts[k + 1] <= frame.len()
                    &&& starts[k + 1] == s + 5 + o
                    &&& frame.subrange(s, s + 5 + o) == card_paints(plate, &stack[k], 216 * k)
                    &&& frame[s] matches Paint::Border { rect, .. } ==> rect.y == 216 * k
                    &&& frame[s] matches Paint::RoundedRect { rect, .. } ==> rect.y == 216 * k
                    &&& frame[s + 1] matches Paint::ClippedQuad { clip, .. }
                    &&& clip.x == 0 && clip.y == 216 * k && clip.width == 720 && clip.height == 200
                    &&& stack[k].image matches Some(image) ==> (frame[s + 2] matches Paint::Image {
                        id,
                        ..
                    } && id == image.id)
                    &&& frame[s + 2 + o] matches Paint::Text { text, .. }
                    &&& text == stack[k].app_name
                    &&& frame[s + 3 + o] matches Paint::Text { text, .. }
                    &&& text == stack[k].summary
                    &&& frame[s + 4 + o] matches Paint::TextBox { text, .. }
                    &&& text == stack[k].body
                }
        }),
{
    let shown: int = crate::notifier::displayed(stack);
    let frame: Seq<Paint<'static>> = frame_paints(plate, stack, shown);
    let starts: Seq<int> = Seq::new(
        (shown + 1) as nat,
        |k: int| frame_paints(plate, stack, k).len() as int,
    );
    assert forall|k: int| 0 <= k < shown implies {
        let o = if (#[trigger] stack[k]).image is Some {
            1int
        } else {
            0int
        };
        let s = starts[k];
        &&& 0 <= s < starts[k + 1] <= frame.len()
        &&& starts[k + 1] == s + 5 + o
        &&& frame.subrange(s, s + 5 + o) == card_paints(plate, &stack[k], 216 * k)
        &&& frame[s] matches Paint::Border { rect, .. } ==> rect.y == 216 * k
        &&& frame[s] matches Paint::RoundedRect { rect, .. } ==> rect.y == 216 * k
        &&& frame[s + 1] matches Paint::ClippedQuad { clip, .. }
        &&& clip.x == 0 && clip.y == 216 * k && clip.width == 720 && clip.height == 200
        &&& stack[k].image matches Some(image) ==> (frame[s + 2] matches Paint::Image { id, .. }
            && id == image.id)
        &&& frame[s + 2 + o] matches Paint::Text { text, .. }
        &&& text == stack[k].app_name
        &&& frame[s + 3 + o] matches Paint::Text { text, .. }
        &&& text == stack[k].summary
        &&& frame[s + 4 + o] matches Paint::TextBox { text, .. }
        &&& text == stack[k].body
    } by {
        lemma_card_in_frame(plate, stack, k, shown);
        card_shows_its_notification(plate, &stack[k], 216 * k);
        let o: int = if stack[k].image is Some {
            1
        } else {
            0
        };
        let s: int = starts[k];
        let part: Seq<Paint<'static>> = frame.subrange(s, s + 5 + o);
        assert(part[0] == frame[s]);
        assert(part[1] == frame[s + 1]);
        assert(part[2] == frame[s + 2]);
        assert(part[2 + o] == frame[s + 2 + o]);
        assert(part[3 + o] == frame[s + 3 + o]);
        assert(part[4 + o] == frame[s + 4 + o]);
    }
    starts
}

} // verus!
