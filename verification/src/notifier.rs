//! The stack of live notifications: what is shown, for how long, and which
//! preview images are still in use.
use crate::plate::PlateStyle;
use crate::single::Single;
use crate::surface;
use crate::surface::MAX_VISIBLE;
use vstd::prelude::*;

verus! {

/// What the notification service asks for.
#[derive(Clone, Debug)]
pub enum UserEvent {
    NewNotification {
        /// Server-assigned, or the client's choice: an arriving id that
        /// matches a live card updates it in place instead of stacking.
        id: u32,
        app_name: String,
        summary: String,
        body: String,
        image_path: Option<String>,
        /// Seconds, already resolved from what the client asked for.
        duration: Single,
    },
    CloseNotification { id: u32 },
}

/// An uploaded preview image and its size in logical pixels.
#[derive(Clone, Copy, Debug, PartialEq, Eq, Structural)]
pub struct Image {
    pub id: u32,
    pub width: u32,
    pub height: u32,
}

/// A live notification.
pub struct Notification {
    pub id: u32,
    pub app_name: String,
    pub summary: String,
    pub body: String,
    pub image: Option<Image>,
    /// Seconds left on screen. Only counts down while the card is displayed,
    /// so a queued notification does not expire before it is ever shown.
    pub remaining: Single,
}

impl Notification {
    /// Whether the time on screen is over.
    pub open spec fn expired(self) -> bool {
        self.remaining.not_above_zero()
    }

    /// The notification after `dt` seconds on screen.
    pub open spec fn aged(self, dt: Single) -> Notification {
        Notification { remaining: self.remaining.difference(dt), ..self }
    }
}

/// Whether a notification with this id is live.
pub open spec fn has_id(stack: Seq<Notification>, id: u32) -> bool {
    exists|i: int| 0 <= i < stack.len() && (#[trigger] stack[i]).id == id
}

/// Whether `i` is the place of the oldest notification with this id.
pub open spec fn is_place_of(stack: Seq<Notification>, id: u32, i: int) -> bool {
    &&& 0 <= i < stack.len()
    &&& stack[i].id == id
    &&& forall|j: int| 0 <= j < i ==> (#[trigger] stack[j]).id != id
}

/// The place of the oldest notification with this id.
pub open spec fn place_of(stack: Seq<Notification>, id: u32) -> int {
    choose|i: int| is_place_of(stack, id, i)
}

/// The stack with a notification put in: where one with its id sits, or else
/// below all the others.
pub open spec fn with_notification(stack: Seq<Notification>, fresh: Notification) -> Seq<
    Notification,
> {
    if has_id(stack, fresh.id) {
        stack.update(place_of(stack, fresh.id), fresh)
    } else {
        stack.push(fresh)
    }
}

/// The stack without the notification of this id.
pub open spec fn without_id(stack: Seq<Notification>, id: u32) -> Seq<Notification> {
    if has_id(stack, id) {
        stack.remove(place_of(stack, id))
    } else {
        stack
    }
}

/// The image that goes out of use when the notification of this id is replaced
/// or closed.
pub open spec fn image_of_id(stack: Seq<Notification>, id: u32) -> Option<u32> {
    if has_id(stack, id) {
        image_id(stack[place_of(stack, id)])
    } else {
        None
    }
}

pub open spec fn image_id(n: Notification) -> Option<u32> {
    match n.image {
        Some(image) => Some(image.id),
        None => None,
    }
}

/// How many of a stack are displayed.
pub open spec fn displayed(stack: Seq<Notification>) -> int {
    if stack.len() < MAX_VISIBLE {
        stack.len() as int
    } else {
        MAX_VISIBLE as int
    }
}

/// The stack after `dt` seconds: only what is displayed grows older.
pub open spec fn aged_stack(stack: Seq<Notification>, dt: Single) -> Seq<Notification> {
    Seq::new(
        stack.len(),
        |i: int|
            if i < displayed(stack) {
                stack[i].aged(dt)
            } else {
                stack[i]
            },
    )
}

/// The notifications of a stack whose time is not over, in their order.
pub open spec fn live(stack: Seq<Notification>) -> Seq<Notification> {
    stack.filter(|n: Notification| !n.expired())
}

/// The images of the notifications whose time is over, in their order.
pub open spec fn images_of_expired(stack: Seq<Notification>) -> Seq<u32> {
    stack.filter_map(
        |n: Notification|
            if n.expired() {
                image_id(n)
            } else {
                None
            },
    )
}

/// The state of the notifier.
pub struct NotifierApp {
    /// Live notifications, oldest first. The first few are displayed from the
    /// top down; the rest wait their turn.
    pub stack: Vec<Notification>,
    pub plate: PlateStyle,
}

/// The first place in the stack with this id.
fn position(stack: &Vec<Notification>, id: u32) -> (p: Option<usize>)
    ensures
        match p {
            Some(i) => has_id(stack@, id) && i == place_of(stack@, id) && i < stack@.len(),
            None => !has_id(stack@, id),
        },
{
    let mut i: usize = 0;
    while i < stack.len()
        invariant
            i <= stack@.len(),
            forall|j: int| 0 <= j < i ==> (#[trigger] stack@[j]).id != id,
        decreases stack@.len() - i,
    {
        if stack[i].id == id {
            proof {
                lemma_place_of(stack@, id, i as int);
            }
            return Some(i);
        }
        i = i + 1;
    }
    None
}

/// There is one oldest notification with an id.
proof fn lemma_place_of(stack: Seq<Notification>, id: u32, i: int)
    requires
        is_place_of(stack, id, i),
    ensures
        has_id(stack, id),
        place_of(stack, id) == i,
{
    let p: int = place_of(stack, id);
    assert(is_place_of(stack, id, p));
    if p < i {
        assert(stack[p].id != id);
    } else if i < p {
        assert(stack[i].id != id);
    }
}

impl NotifierApp {
    /// Whether every live notification has an id of its own.
    pub open spec fn well_formed(self) -> bool {
        ids_are_distinct(self.stack@)
    }

    /// Nothing to show yet.
    pub fn new(plate: PlateStyle) -> (app: NotifierApp)
        ensures
            app.well_formed(),
            app.stack@ == Seq::<Notification>::empty(),
            app.plate == plate,
    {
        NotifierApp { stack: Vec::new(), plate }
    }

    /// How many notifications are displayed.
    pub fn visible_count(&self) -> (n: usize)
        ensures
            n == displayed(self.stack@),
    {
        if self.stack.len() < MAX_VISIBLE {
            self.stack.len()
        } else {
            MAX_VISIBLE
        }
    }

    /// Takes in a message. A new notification comes with its uploaded preview
    /// image and the current plate style; a repeat of a live id (volume steps,
    /// download progress) refreshes that card where it sits rather than
    /// growing the stack. Returns the image that is no longer in use.
    pub fn update(
        &mut self,
        msg: UserEvent,
        image: Option<Image>,
        plate: PlateStyle,
        needs_rebuild: &mut bool,
    ) -> (freed: Option<u32>)
        ensures
            old(self).well_formed() ==> final(self).well_formed(),
            match msg {
                UserEvent::NewNotification {
                    id,
                    app_name,
                    summary,
                    body,
                    image_path,
                    duration,
                } => {
                    &&& final(self).stack@ == with_notification(
                        old(self).stack@,
                        Notification { id, app_name, summary, body, image, remaining: duration },
                    )
                    &&& final(self).plate == plate
                    &&& *final(needs_rebuild)
                    &&& freed == image_of_id(old(self).stack@, id)
                },
                UserEvent::CloseNotification { id } => {
                    &&& final(self).stack@ == without_id(old(self).stack@, id)
                    &&& final(self).plate == old(self).plate
                    &&& *final(needs_rebuild) == (*old(needs_rebuild) || has_id(
                        old(self).stack@,
                        id,
                    ))
                    &&& freed == image_of_id(old(self).stack@, id)
                },
            },
    {
        match msg {
            UserEvent::NewNotification { id, app_name, summary, body, image_path: _, duration } => {
                let fresh: Notification = Notification {
                    id,
                    app_name,
                    summary,
                    body,
                    image,
                    remaining: duration,
                };
                proof {
                    if self.well_formed() {
                        update_keeps_ids_distinct(self.stack@, fresh);
                    }
                }
                let freed: Option<u32> = match position(&self.stack, id) {
                    Some(i) => {
                        let freed: Option<u32> = image_in_use(&self.stack[i]);
                        self.stack.set(i, fresh);
                        freed
                    },
                    None => {
                        self.stack.push(fresh);
                        None
                    },
                };
                self.plate = plate;
                *needs_rebuild = true;
                freed
            },
            UserEvent::CloseNotification { id } => match position(&self.stack, id) {
                Some(i) => {
                    proof {
                        if self.well_formed() {
                            close_removes_the_id(self.stack@, id);
                        }
                    }
                    let closed: Notification = self.stack.remove(i);
                    *needs_rebuild = true;
                    image_in_use(&closed)
                },
                None => None,
            },
        }
    }

    /// Lets `dt` seconds pass. Only displayed cards age; queued ones keep their
    /// full duration and start counting when a slot frees up. Returns the
    /// images that are no longer in use.
    pub fn tick(&mut self, dt: Single, needs_rebuild: &mut bool) -> (freed: Vec<u32>)
        ensures
            old(self).well_formed() ==> final(self).well_formed(),
            final(self).stack@ == live(aged_stack(old(self).stack@, dt)),
            final(self).plate == old(self).plate,
            freed@ == images_of_expired(aged_stack(old(self).stack@, dt)),
            *final(needs_rebuild) == (*old(needs_rebuild) || final(self).stack@.len() != old(
                self,
            ).stack@.len()),
    {
        let ghost start: Seq<Notification> = self.stack@;
        let ghost aged: Seq<Notification> = aged_stack(start, dt);
        let visible: usize = self.visible_count();
        let mut k: usize = 0;
        while k < visible
            invariant
                k <= visible,
                visible == displayed(start),
                aged == aged_stack(start, dt),
                self.plate == old(self).plate,
                self.stack@ == aged.take(k as int) + start.skip(k as int),
            decreases visible - k,
        {
            let left: Single = self.stack[k].remaining.minus(dt);
            self.stack[k].remaining = left;
            k = k + 1;
        }
        let before: usize = self.stack.len();
        let mut freed: Vec<u32> = Vec::new();
        let mut i: usize = 0;
        let ghost mut seen: int = 0;
        while i < self.stack.len()
            invariant
                0 <= seen <= aged.len(),
                self.plate == old(self).plate,
                self.stack@ == live(aged.take(seen)) + aged.skip(seen),
                i == live(aged.take(seen)).len(),
                freed@ == images_of_expired(aged.take(seen)),
            decreases aged.len() - seen,
        {
            proof {
                assert(seen < aged.len());
                assert(self.stack@[i as int] == aged[seen]);
                lemma_one_more(aged, seen);
            }
            if self.stack[i].remaining.is_not_above_zero() {
                let gone: Notification = self.stack.remove(i);
                if let Some(id) = image_in_use(&gone) {
                    freed.push(id);
                }
            } else {
                i = i + 1;
            }
            proof {
                seen = seen + 1;
            }
        }
        proof {
            assert(aged.take(seen) == aged);
            if old(self).well_formed() {
                tick_keeps_ids_distinct(start, dt);
            }
        }
        if self.stack.len() != before {
            *needs_rebuild = true;
        }
        freed
    }

    /// One region per displayed card, so the gaps between them and the unused
    /// tail of the surface let clicks through. There is always a list, if only
    /// an empty one that lets every click through.
    pub fn input_regions(&self) -> (regions: Option<Vec<(i32, i32, i32, i32)>>)
        ensures
            regions matches Some(list) && list@ == Seq::new(
                displayed(self.stack@) as nat,
                |i: int| surface::slot_region(i),
            ),
    {
        Some(surface::card_regions(self.visible_count()))
    }
}

/// What one more notification adds to the live ones and to the images of the
/// expired ones.
proof fn lemma_one_more(stack: Seq<Notification>, k: int)
    requires
        0 <= k < stack.len(),
    ensures
        live(stack.take(k + 1)) == if stack[k].expired() {
            live(stack.take(k))
        } else {
            live(stack.take(k)).push(stack[k])
        },
        images_of_expired(stack.take(k + 1)) == match image_id(stack[k]) {
            Some(id) if stack[k].expired() => images_of_expired(stack.take(k)).push(id),
            _ => images_of_expired(stack.take(k)),
        },
{
    reveal(Seq::filter);
    assert(stack.take(k + 1).drop_last() == stack.take(k));
    assert(stack.take(k + 1).last() == stack[k]);
}

/// The image of a notification.
fn image_in_use(n: &Notification) -> (id: Option<u32>)
    ensures
        id == image_id(*n),
{
    match n.image {
        Some(image) => Some(image.id),
        None => None,
    }
}

/// Whether every live notification has an id of its own.
pub open spec fn ids_are_distinct(stack: Seq<Notification>) -> bool {
    forall|i: int, j: int|
        0 <= i < j < stack.len() ==> (#[trigger] stack[i]).id != (#[trigger] stack[j]).id
}

/// An id that is live has a place.
pub proof fn lemma_has_place(stack: Seq<Notification>, id: u32)
    requires
        has_id(stack, id),
    ensures
        is_place_of(stack, id, place_of(stack, id)),
{
    let i: int = choose|i: int| 0 <= i < stack.len() && (#[trigger] stack[i]).id == id;
    lemma_first_place(stack, id, i);
}

proof fn lemma_first_place(stack: Seq<Notification>, id: u32, i: int)
    requires
        0 <= i < stack.len(),
        stack[i].id == id,
    ensures
        is_place_of(stack, id, place_of(stack, id)),
    decreases i,
{
    if exists|j: int| 0 <= j < i && (#[trigger] stack[j]).id == id {
        let j: int = choose|j: int| 0 <= j < i && (#[trigger] stack[j]).id == id;
        lemma_first_place(stack, id, j);
    } else {
        lemma_place_of(stack, id, i);
    }
}

/// A notification with the id of a live one takes its place: the stack does
/// not grow, and all others stay as and where they are.
pub proof fn repeat_refreshes_in_place(stack: Seq<Notification>, fresh: Notification)
    requires
        has_id(stack, fresh.id),
    ensures
        with_notification(stack, fresh).len() == stack.len(),
        0 <= place_of(stack, fresh.id) < stack.len(),
        with_notification(stack, fresh)[place_of(stack, fresh.id)] == fresh,
        forall|i: int|
            0 <= i < stack.len() && i != place_of(stack, fresh.id) ==> with_notification(
                stack,
                fresh,
            )[i] == stack[i],
{
    lemma_has_place(stack, fresh.id);
}

/// A notification with an id of its own goes below all the others, which stay
/// as and where they are.
pub proof fn new_notification_goes_last(stack: Seq<Notification>, fresh: Notification)
    requires
        !has_id(stack, fresh.id),
    ensures
        with_notification(stack, fresh).len() == stack.len() + 1,
        with_notification(stack, fresh).last() == fresh,
        with_notification(stack, fresh).drop_last() == stack,
{
}

/// Taking in a notification keeps ids distinct.
pub proof fn update_keeps_ids_distinct(stack: Seq<Notification>, fresh: Notification)
    requires
        ids_are_distinct(stack),
    ensures
        ids_are_distinct(with_notification(stack, fresh)),
        has_id(with_notification(stack, fresh), fresh.id),
{
    let after: Seq<Notification> = with_notification(stack, fresh);
    if has_id(stack, fresh.id) {
        lemma_has_place(stack, fresh.id);
        assert(after[place_of(stack, fresh.id)].id == fresh.id);
    } else {
        assert(after[stack.len() as int].id == fresh.id);
    }
}

/// Closing a notification keeps ids distinct, and none with its id is left.
pub proof fn close_removes_the_id(stack: Seq<Notification>, id: u32)
    requires
        ids_are_distinct(stack),
    ensures
        ids_are_distinct(without_id(stack, id)),
        !has_id(without_id(stack, id), id),
        forall|other: u32|
            other != id ==> has_id(without_id(stack, id), other) == has_id(stack, other),
{
    let after: Seq<Notification> = without_id(stack, id);
    if has_id(stack, id) {
        lemma_has_place(stack, id);
        let p: int = place_of(stack, id);
        assert forall|i: int| 0 <= i < after.len() implies (#[trigger] after[i]).id != id by {
            assert(after[i] == stack[if i < p { i } else { i + 1 }]);
        }
        assert forall|other: u32| other != id implies has_id(after, other) == has_id(
            stack,
            other,
        ) by {
            if has_id(after, other) {
                let i: int = choose|i: int| 0 <= i < after.len() && (#[trigger] after[i]).id == other;
                assert(stack[if i < p { i } else { i + 1 }].id == other);
            }
            if has_id(stack, other) {
                let i: int = choose|i: int| 0 <= i < stack.len() && (#[trigger] stack[i]).id == other;
                assert(after[if i < p { i } else { i - 1 }].id == other);
            }
        }
    }
}

/// Letting time pass keeps ids distinct.
pub proof fn tick_keeps_ids_distinct(stack: Seq<Notification>, dt: Single)
    requires
        ids_are_distinct(stack),
    ensures
        ids_are_distinct(live(aged_stack(stack, dt))),
{
    let aged: Seq<Notification> = aged_stack(stack, dt);
    assert forall|i: int, j: int| 0 <= i < j < aged.len() implies (#[trigger] aged[i]).id != (
    #[trigger] aged[j]).id by {
        assert(stack[i].id != stack[j].id);
    }
    lemma_live_distinct(aged);
}

proof fn lemma_live_distinct(stack: Seq<Notification>)
    requires
        ids_are_distinct(stack),
    ensures
        ids_are_distinct(live(stack)),
    decreases stack.len(),
{
    reveal(Seq::filter);
    if stack.len() > 0 {
        let rest: Seq<Notification> = stack.drop_last();
        lemma_live_distinct(rest);
        assert forall|i: int| 0 <= i < live(rest).len() implies (#[trigger] live(rest)[i]).id
            != stack.last().id by {
            rest.lemma_filter_contains_rev(|n: Notification| !n.expired(), live(rest)[i]);
            let j: int = choose|j: int| 0 <= j < rest.len() && rest[j] == live(rest)[i];
            assert(stack[j].id != stack[stack.len() - 1].id);
        }
    }
}

/// All of a stack stays live where none has expired.
proof fn lemma_all_live(stack: Seq<Notification>)
    requires
        forall|i: int| 0 <= i < stack.len() ==> !(#[trigger] stack[i]).expired(),
    ensures
        live(stack) == stack,
    decreases stack.len(),
{
    reveal(Seq::filter);
    if stack.len() > 0 {
        assert forall|i: int| 0 <= i < stack.drop_last().len() implies !(
        #[trigger] stack.drop_last()[i]).expired() by {
            assert(stack.drop_last()[i] == stack[i]);
        }
        lemma_all_live(stack.drop_last());
        assert(!stack[stack.len() - 1].expired());
        assert(stack.drop_last().push(stack.last()) == stack);
    }
}

/// Queued notifications keep their time and their order: whatever happens to
/// the displayed ones, the queue follows them unchanged, and its head is
/// displayed as soon as a slot is free.
pub proof fn queue_moves_up_unchanged(stack: Seq<Notification>, dt: Single)
    requires
        all_have_time(stack.skip(displayed(stack))),
    ensures
        ({
            let d = displayed(stack);
            let shown = live(aged_stack(stack, dt).take(d));
            let after = live(aged_stack(stack, dt));
            &&& after == shown + stack.skip(d)
            &&& d < stack.len() && shown.len() < MAX_VISIBLE ==> {
                &&& after[shown.len() as int] == stack[d]
                &&& shown.len() < displayed(after)
            }
        }),
{
    let d: int = displayed(stack);
    let aged: Seq<Notification> = aged_stack(stack, dt);
    let queue: Seq<Notification> = stack.skip(d);
    assert(aged.skip(d) == queue);
    assert(aged == aged.take(d) + queue);
    Seq::filter_distributes_over_add(aged.take(d), queue, |n: Notification| !n.expired());
    lemma_all_live(queue);
}

/// A displayed notification expires exactly when no more time is left than
/// passes.
pub proof fn expires_when_its_time_is_up(n: Notification, dt: Single)
    requires
        !n.remaining.is_nan(),
        dt.is_finite(),
    ensures
        n.aged(dt).expired() <==> n.remaining.value() <= dt.value(),
{
    crate::single::lemma_difference_sign(n.remaining, dt);
    crate::single::lemma_rank_orders_values(n.remaining, dt);
}

/// The time left never grows.
pub proof fn time_left_never_grows(n: Notification, dt: Single)
    requires
        !n.remaining.is_nan(),
        dt.is_finite(),
        dt.value() >= 0,
    ensures
        n.aged(dt).remaining.at_most(n.remaining),
{
    let zero: Single = Single { bits: 0 };
    crate::single::lemma_rank_orders_values(zero, dt);
    crate::single::lemma_difference_sign(n.remaining, dt);
    crate::single::lemma_difference_not_larger(n.remaining, dt);
}

/// Whether every notification of a stack has time left.
pub open spec fn all_have_time(stack: Seq<Notification>) -> bool {
    forall|i: int| 0 <= i < stack.len() ==> !(#[trigger] stack[i]).expired()
}

/// Once time has passed, nothing that has expired is left on the stack.
pub proof fn tick_leaves_only_live(stack: Seq<Notification>, dt: Single)
    ensures
        all_have_time(live(aged_stack(stack, dt))),
{
    let aged: Seq<Notification> = aged_stack(stack, dt);
    let keep: spec_fn(Notification) -> bool = |n: Notification| !n.expired();
    assert forall|i: int| 0 <= i < live(aged).len() implies !(#[trigger] live(aged)[i]).expired() by {
        aged.lemma_filter_pred(keep, i);
        assert(keep(aged.filter(keep)[i]));
    }
}

/// Messages leave nothing on the stack that has expired either, as long as
/// notifications arrive with time left.
pub proof fn messages_leave_only_live(stack: Seq<Notification>, fresh: Notification, closed: u32)
    requires
        all_have_time(stack),
        !fresh.expired(),
    ensures
        all_have_time(with_notification(stack, fresh)),
        all_have_time(without_id(stack, closed)),
{
    if has_id(stack, fresh.id) {
        lemma_has_place(stack, fresh.id);
    }
    if has_id(stack, closed) {
        lemma_has_place(stack, closed);
    }
}

/// How many notifications of a stack show the image `id`.
pub open spec fn holders(stack: Seq<Notification>, id: u32) -> nat {
    stack.filter(|n: Notification| image_id(n) == Some(id)).len()
}

/// What one more notification adds to the holders of an image.
proof fn lemma_one_more_holder(stack: Seq<Notification>, n: Notification, id: u32)
    ensures
        holders(stack.push(n), id) == holders(stack, id) + (if image_id(n) == Some(id) {
            1nat
        } else {
            0nat
        }),
{
    reveal(Seq::filter);
    assert(stack.push(n).drop_last() == stack);
}

/// Holders in a stack that is put together of two.
proof fn lemma_holders_add(a: Seq<Notification>, b: Seq<Notification>, id: u32)
    ensures
        holders(a + b, id) == holders(a, id) + holders(b, id),
{
    Seq::filter_distributes_over_add(a, b, |n: Notification| image_id(n) == Some(id));
}

/// Holders in a stack with one in the middle.
proof fn lemma_holders_at(
    a: Seq<Notification>,
    n: Notification,
    b: Seq<Notification>,
    id: u32,
)
    ensures
        holders(a.push(n) + b, id) == holders(a, id) + holders(b, id) + (if image_id(n) == Some(
            id,
        ) {
            1nat
        } else {
            0nat
        }),
{
    lemma_holders_add(a.push(n), b, id);
    lemma_one_more_holder(a, n, id);
}

/// Whether `one` is the image `id`, as a count.
pub open spec fn uses(one: Option<u32>, id: u32) -> nat {
    if one == Some(id) {
        1
    } else {
        0
    }
}

/// Taking in a notification neither loses an image nor frees one twice: every
/// use that was there or arrives is still there or is handed back.
pub proof fn update_accounts_for_images(stack: Seq<Notification>, fresh: Notification, id: u32)
    ensures
        holders(stack, id) + uses(image_id(fresh), id) == holders(
            with_notification(stack, fresh),
            id,
        ) + uses(image_of_id(stack, fresh.id), id),
{
    if has_id(stack, fresh.id) {
        lemma_has_place(stack, fresh.id);
        let p: int = place_of(stack, fresh.id);
        let a: Seq<Notification> = stack.take(p);
        let b: Seq<Notification> = stack.skip(p + 1);
        lemma_holders_at(a, stack[p], b, id);
        lemma_holders_at(a, fresh, b, id);
        assert(a.push(stack[p]) + b == stack);
        assert(a.push(fresh) + b == with_notification(stack, fresh));
    } else {
        lemma_one_more_holder(stack, fresh, id);
    }
}

/// Closing a notification neither loses an image nor frees one twice.
pub proof fn close_accounts_for_images(stack: Seq<Notification>, closed: u32, id: u32)
    ensures
        holders(stack, id) == holders(without_id(stack, closed), id) + uses(
            image_of_id(stack, closed),
            id,
        ),
{
    if has_id(stack, closed) {
        lemma_has_place(stack, closed);
        let p: int = place_of(stack, closed);
        let a: Seq<Notification> = stack.take(p);
        let b: Seq<Notification> = stack.skip(p + 1);
        lemma_holders_at(a, stack[p], b, id);
        lemma_holders_add(a, b, id);
        assert(a.push(stack[p]) + b == stack);
        assert(a + b == without_id(stack, closed));
    }
}

/// Letting time pass neither loses an image nor frees one twice.
pub proof fn tick_accounts_for_images(stack: Seq<Notification>, dt: Single, id: u32)
    ensures
        holders(stack, id) == holders(live(aged_stack(stack, dt)), id) + images_of_expired(
            aged_stack(stack, dt),
        ).to_multiset().count(id),
{
    let aged: Seq<Notification> = aged_stack(stack, dt);
    lemma_same_images(stack, aged, id);
    lemma_expiry_accounts(aged, id);
}

/// Aging does not touch images.
proof fn lemma_same_images(a: Seq<Notification>, b: Seq<Notification>, id: u32)
    requires
        a.len() == b.len(),
        forall|i: int| 0 <= i < a.len() ==> (#[trigger] a[i]).image == (#[trigger] b[i]).image,
    ensures
        holders(a, id) == holders(b, id),
    decreases a.len(),
{
    reveal(Seq::filter);
    if a.len() > 0 {
        assert(a[a.len() - 1].image == b[b.len() - 1].image);
        assert forall|i: int| 0 <= i < a.drop_last().len() implies (
        #[trigger] a.drop_last()[i]).image == (#[trigger] b.drop_last()[i]).image by {
            assert(a[i].image == b[i].image);
        }
        lemma_same_images(a.drop_last(), b.drop_last(), id);
    }
}

proof fn lemma_expiry_accounts(stack: Seq<Notification>, id: u32)
    ensures
        holders(stack, id) == holders(live(stack), id) + images_of_expired(
            stack,
        ).to_multiset().count(id),
    decreases stack.len(),
{
    broadcast use vstd::seq_lib::group_to_multiset_ensures;

    if stack.len() == 0 {
        reveal(Seq::filter);
        assert(images_of_expired(stack) == Seq::<u32>::empty());
    } else {
        let k: int = stack.len() - 1;
        let rest: Seq<Notification> = stack.drop_last();
        lemma_expiry_accounts(rest, id);
        lemma_one_more(stack, k);
        assert(stack.take(k + 1) == stack);
        assert(stack.take(k) == rest);
        assert(rest.push(stack[k]) == stack);
        lemma_one_more_holder(rest, stack[k], id);
        lemma_one_more_holder(live(rest), stack[k], id);
    }
}

/// Time takes nothing from a card but its time: everything that it shows, and
/// its id, stay as they are.
pub proof fn time_takes_only_time(n: Notification, dt: Single)
    ensures
        n.aged(dt).id == n.id,
        n.aged(dt).app_name == n.app_name,
        n.aged(dt).summary == n.summary,
        n.aged(dt).body == n.body,
        n.aged(dt).image == n.image,
        n.aged(dt).remaining == n.remaining.difference(dt),
{
}

/// A notification is over when its time is a number, and not above zero.
pub proof fn over_means_no_time_left(n: Notification)
    ensures
        n.expired() <==> !n.remaining.is_nan() && n.remaining.value() <= 0,
{
    crate::single::order_is_by_value(n.remaining, Single { bits: 0 });
}

/// As many are displayed as there are slots, or as there are notifications
/// where those are fewer.
pub proof fn slots_are_filled(stack: Seq<Notification>)
    ensures
        0 <= displayed(stack) <= MAX_VISIBLE,
        displayed(stack) <= stack.len(),
        displayed(stack) == MAX_VISIBLE || displayed(stack) == stack.len(),
{
}

/// The places, in their order, of those that are not over, and of those that
/// are over and show an image.
proof fn lemma_places(stack: Seq<Notification>) -> (r: (Seq<int>, Seq<int>))
    ensures
        r.0.len() == live(stack).len(),
        forall|k: int|
            0 <= k < r.0.len() ==> 0 <= #[trigger] r.0[k] < stack.len() && live(stack)[k]
                == stack[r.0[k]] && !stack[r.0[k]].expired(),
        forall|j: int, k: int| 0 <= j < k < r.0.len() ==> r.0[j] < r.0[k],
        forall|i: int|
            0 <= i < stack.len() && !(#[trigger] stack[i]).expired() ==> r.0.contains(i),
        r.1.len() == images_of_expired(stack).len(),
        forall|k: int|
            0 <= k < r.1.len() ==> 0 <= #[trigger] r.1[k] < stack.len() && image_id(
                stack[r.1[k]],
            ) == Some(images_of_expired(stack)[k]) && stack[r.1[k]].expired(),
        forall|j: int, k: int| 0 <= j < k < r.1.len() ==> r.1[j] < r.1[k],
        forall|i: int|
            0 <= i < stack.len() && (#[trigger] stack[i]).expired() && image_id(stack[i]) is Some
                ==> r.1.contains(i),
    decreases stack.len(),
{
    if stack.len() == 0 {
        reveal(Seq::filter);
        (Seq::empty(), Seq::empty())
    } else {
        let z: int = stack.len() - 1;
        let rest: Seq<Notification> = stack.drop_last();
        let (kept, gone): (Seq<int>, Seq<int>) = lemma_places(rest);
        lemma_one_more(stack, z);
        assert(stack.take(z + 1) == stack);
        assert(stack.take(z) == rest);
        let kept_now: Seq<int> = if stack[z].expired() {
            kept
        } else {
            kept.push(z)
        };
        let gone_now: Seq<int> = if stack[z].expired() && image_id(stack[z]) is Some {
            gone.push(z)
        } else {
            gone
        };
        assert forall|i: int| 0 <= i < stack.len() && !(#[trigger] stack[i]).expired() implies
            kept_now.contains(i) by {
            if i < z {
                assert(rest[i] == stack[i]);
                let k: int = choose|k: int| 0 <= k < kept.len() && kept[k] == i;
                assert(kept_now[k] == i);
            } else {
                assert(kept_now[kept.len() as int] == z);
            }
        }
        assert forall|i: int|
            0 <= i < stack.len() && (#[trigger] stack[i]).expired() && image_id(
                stack[i],
            ) is Some implies gone_now.contains(i) by {
            if i < z {
                assert(rest[i] == stack[i]);
                let k: int = choose|k: int| 0 <= k < gone.len() && gone[k] == i;
                assert(gone_now[k] == i);
            } else {
                assert(gone_now[gone.len() as int] == z);
            }
        }
        (kept_now, gone_now)
    }
}

/// Every card on the stack after a tick is a card from before, in the same
/// order, with nothing but the time changed, and that only where it was
/// displayed. `from` gives the place that each had. Those that are missing are
/// just the ones whose time is over.
pub proof fn tick_keeps_cards_and_their_order(stack: Seq<Notification>, dt: Single) -> (from: Seq<
    int,
>)
    ensures
        from.len() == live(aged_stack(stack, dt)).len(),
        forall|j: int, k: int| 0 <= j < k < from.len() ==> from[j] < from[k],
        forall|k: int|
            0 <= k < from.len() ==> {
                let was = stack[#[trigger] from[k]];
                let is = live(aged_stack(stack, dt))[k];
                &&& 0 <= from[k] < stack.len()
                &&& is.id == was.id
                &&& is.app_name == was.app_name
                &&& is.summary == was.summary
                &&& is.body == was.body
                &&& is.image == was.image
                &&& from[k] < MAX_VISIBLE ==> is.remaining == was.remaining.difference(dt)
                &&& from[k] >= MAX_VISIBLE ==> is.remaining == was.remaining
                &&& is.remaining.is_nan() || is.remaining.value() > 0
            },
        forall|i: int|
            0 <= i < stack.len() && !from.contains(i) ==> {
                let left = if i < MAX_VISIBLE {
                    (#[trigger] stack[i]).remaining.difference(dt)
                } else {
                    stack[i].remaining
                };
                !left.is_nan() && left.value() <= 0
            },
{
    let aged: Seq<Notification> = aged_stack(stack, dt);
    let (from, gone): (Seq<int>, Seq<int>) = lemma_places(aged);
    assert forall|k: int| 0 <= k < from.len() implies {
        let is = #[trigger] live(aged)[k];
        is.remaining.is_nan() || is.remaining.value() > 0
    } by {
        assert(0 <= from[k]);
        over_means_no_time_left(live(aged)[k]);
    }
    assert forall|i: int| 0 <= i < stack.len() && !from.contains(i) implies {
        let left = if i < MAX_VISIBLE {
            (#[trigger] stack[i]).remaining.difference(dt)
        } else {
            stack[i].remaining
        };
        !left.is_nan() && left.value() <= 0
    } by {
        assert(aged[i].expired());
        over_means_no_time_left(aged[i]);
    }
    from
}

/// A tick hands back the images of just those cards whose time is over, in
/// their order. `gone` gives the place that each card had.
pub proof fn tick_frees_the_images_of_the_expired(stack: Seq<Notification>, dt: Single) -> (gone:
    Seq<int>)
    ensures
        gone.len() == images_of_expired(aged_stack(stack, dt)).len(),
        forall|j: int, k: int| 0 <= j < k < gone.len() ==> gone[j] < gone[k],
        forall|k: int|
            0 <= k < gone.len() ==> {
                let n = stack[#[trigger] gone[k]];
                let left = if gone[k] < MAX_VISIBLE {
                    n.remaining.difference(dt)
                } else {
                    n.remaining
                };
                &&& 0 <= gone[k] < stack.len()
                &&& !left.is_nan() && left.value() <= 0
                &&& n.image matches Some(image)
                &&& image.id == images_of_expired(aged_stack(stack, dt))[k]
            },
        forall|i: int|
            0 <= i < stack.len() && stack[i].image is Some ==> {
                let left = if i < MAX_VISIBLE {
                    (#[trigger] stack[i]).remaining.difference(dt)
                } else {
                    stack[i].remaining
                };
                !left.is_nan() && left.value() <= 0 ==> gone.contains(i)
            },
{
    let aged: Seq<Notification> = aged_stack(stack, dt);
    let (from, gone): (Seq<int>, Seq<int>) = lemma_places(aged);
    assert forall|k: int| 0 <= k < gone.len() implies {
        let n = stack[#[trigger] gone[k]];
        let left = if gone[k] < MAX_VISIBLE {
            n.remaining.difference(dt)
        } else {
            n.remaining
        };
        !left.is_nan() && left.value() <= 0
    } by {
        over_means_no_time_left(aged[gone[k]]);
    }
    assert forall|i: int| 0 <= i < stack.len() && stack[i].image is Some implies {
        let left = if i < MAX_VISIBLE {
            (#[trigger] stack[i]).remaining.difference(dt)
        } else {
            stack[i].remaining
        };
        !left.is_nan() && left.value() <= 0 ==> gone.contains(i)
    } by {
        over_means_no_time_left(aged[i]);
        assert(aged[i].image == stack[i].image);
    }
    gone
}

/// Where the first card with an id sits at `p`, a notification with that id
/// replaces just this card and frees its image.
pub proof fn repeat_replaces_the_first_of_its_id(
    stack: Seq<Notification>,
    fresh: Notification,
    p: int,
)
    requires
        0 <= p < stack.len(),
        stack[p].id == fresh.id,
        forall|j: int| 0 <= j < p ==> (#[trigger] stack[j]).id != fresh.id,
    ensures
        with_notification(stack, fresh).len() == stack.len(),
        with_notification(stack, fresh)[p] == fresh,
        forall|i: int|
            0 <= i < stack.len() && i != p ==> #[trigger] with_notification(stack, fresh)[i]
                == stack[i],
        match stack[p].image {
            Some(image) => image_of_id(stack, fresh.id) == Some(image.id),
            None => image_of_id(stack, fresh.id) is None,
        },
{
    lemma_place_of(stack, fresh.id, p);
}

/// Where the first card with an id sits at `p`, closing the id takes out just
/// this card and frees its image. The cards above stay, and those below slide
/// up in their order.
pub proof fn close_lets_the_cards_below_slide_up(stack: Seq<Notification>, id: u32, p: int)
    requires
        0 <= p < stack.len(),
        stack[p].id == id,
        forall|j: int| 0 <= j < p ==> (#[trigger] stack[j]).id != id,
    ensures
        has_id(stack, id),
        without_id(stack, id).len() == stack.len() - 1,
        forall|i: int| 0 <= i < p ==> #[trigger] without_id(stack, id)[i] == stack[i],
        forall|i: int|
            p <= i < stack.len() - 1 ==> #[trigger] without_id(stack, id)[i] == stack[i + 1],
        match stack[p].image {
            Some(image) => image_of_id(stack, id) == Some(image.id),
            None => image_of_id(stack, id) is None,
        },
{
    lemma_place_of(stack, id, p);
}

/// Where no card has the id of a notification, that goes below all the others;
/// closing such an id changes nothing. No image is freed.
pub proof fn unknown_id_touches_no_card(stack: Seq<Notification>, fresh: Notification)
    requires
        forall|i: int| 0 <= i < stack.len() ==> (#[trigger] stack[i]).id != fresh.id,
    ensures
        !has_id(stack, fresh.id),
        with_notification(stack, fresh).len() == stack.len() + 1,
        with_notification(stack, fresh)[stack.len() as int] == fresh,
        forall|i: int|
            0 <= i < stack.len() ==> #[trigger] with_notification(stack, fresh)[i] == stack[i],
        without_id(stack, fresh.id) == stack,
        image_of_id(stack, fresh.id) is None,
{
}

/// What was just put in can be taken out again: a new notification that is
/// closed at once leaves the stack as it was.
pub proof fn close_undoes_a_new_notification(stack: Seq<Notification>, fresh: Notification)
    requires
        forall|i: int| 0 <= i < stack.len() ==> (#[trigger] stack[i]).id != fresh.id,
    ensures
        without_id(with_notification(stack, fresh), fresh.id) == stack,
{
    let after: Seq<Notification> = with_notification(stack, fresh);
    close_lets_the_cards_below_slide_up(after, fresh.id, stack.len() as int);
    assert(without_id(after, fresh.id) =~= stack);
}

} // verus!
