//! The notification service: ids, durations and preview images of what clients
//! ask for, and what the server says of itself.
use crate::notifier::UserEvent;
use crate::rounding;
use crate::single::Single;
use vstd::arithmetic::power2;
use vstd::prelude::*;
use vstd::string::StrSliceExecFns;

verus! {

/// The value of a hint, as far as it is read: a string, or anything else.
pub enum HintValue {
    Str(String),
    Other,
}

/// A hint that comes with a notification.
pub struct Hint {
    pub key: String,
    pub value: HintValue,
}

/// The string that the first hint with this key holds; `None` where there is
/// no such hint, or its value is not a string.
pub open spec fn hint_string(hints: Seq<Hint>, key: Seq<char>) -> Option<Seq<char>>
    decreases hints.len(),
{
    if hints.len() == 0 {
        None
    } else if hints[0].key@ == key {
        match hints[0].value {
            HintValue::Str(s) => Some(s@),
            HintValue::Other => None,
        }
    } else {
        hint_string(hints.skip(1), key)
    }
}

/// The characters of a string that may be missing.
pub open spec fn text_of(s: Option<String>) -> Option<Seq<char>> {
    match s {
        Some(s) => Some(s@),
        None => None,
    }
}

/// The path of the preview image: the standard hint, else its older spelling,
/// else an icon that is given by an absolute path.
pub open spec fn preview_path(hints: Seq<Hint>, app_icon: Seq<char>) -> Option<Seq<char>> {
    if hint_string(hints, "image-path"@) is Some {
        hint_string(hints, "image-path"@)
    } else if hint_string(hints, "image_path"@) is Some {
        hint_string(hints, "image_path"@)
    } else if app_icon.len() > 0 && app_icon[0] == '/' {
        Some(app_icon)
    } else {
        None
    }
}

/// How long a notification is displayed, in seconds: what the client asks for
/// in milliseconds, where that is positive, else the configured default; and
/// at least one second. Asking for zero means "never expire", but cards cannot
/// be clicked away, so it is treated as the default rather than pinning a slot
/// forever.
pub open spec fn display_seconds(expire_timeout: int, default_seconds: int) -> Single {
    (if expire_timeout > 0 {
        Single::of_int(expire_timeout).quotient(Single::of_int(1000))
    } else {
        Single::of_int(default_seconds)
    }).greater(Single::of_int(1))
}

/// The id that a request gets from a counter that stands at `next`.
pub open spec fn issued_id(next: u32, replaces_id: u32) -> u32 {
    if replaces_id != 0 {
        replaces_id
    } else {
        next
    }
}

/// Where the counter stands after a request. It is pushed past an id that the
/// client chose, except the last id, past which there is none; after the last
/// id of its own it starts over.
pub open spec fn counter_after(next: u32, replaces_id: u32) -> u32 {
    if replaces_id != 0 {
        if next <= replaces_id < u32::MAX {
            (replaces_id + 1) as u32
        } else {
            next
        }
    } else if next == u32::MAX {
        0
    } else {
        (next + 1) as u32
    }
}

/// The string of the first hint with this key.
fn hint_str(hints: &Vec<Hint>, key: &String) -> (s: Option<String>)
    ensures
        text_of(s) == hint_string(hints@, key@),
{
    let mut i: usize = 0;
    proof {
        assert(hints@.skip(0) == hints@);
    }
    while i < hints.len()
        invariant
            i <= hints@.len(),
            hint_string(hints@, key@) == hint_string(hints@.skip(i as int), key@),
        decreases hints@.len() - i,
    {
        if hints[i].key == *key {
            return match &hints[i].value {
                HintValue::Str(s) => Some(s.clone()),
                HintValue::Other => None,
            };
        }
        proof {
            assert(hints@.skip(i as int).skip(1) == hints@.skip(i + 1));
        }
        i = i + 1;
    }
    None
}

/// The path of the preview image of a notification.
pub fn image_path(hints: &Vec<Hint>, app_icon: &String) -> (path: Option<String>)
    ensures
        text_of(path) == preview_path(hints@, app_icon@),
{
    if let Some(s) = hint_str(hints, &"image-path".to_string()) {
        return Some(s);
    }
    if let Some(s) = hint_str(hints, &"image_path".to_string()) {
        return Some(s);
    }
    let icon: &str = app_icon.as_str();
    if icon.unicode_len() > 0 && icon.get_char(0) == '/' {
        Some(app_icon.clone())
    } else {
        None
    }
}

/// How long a notification is displayed, in seconds.
pub fn duration(expire_timeout: i32, default_seconds: i64) -> (seconds: Single)
    ensures
        seconds == display_seconds(expire_timeout as int, default_seconds as int),
{
    let asked: Single = if expire_timeout > 0 {
        proof {
            crate::single::lemma_of_int_range(expire_timeout as int);
            crate::single::lemma_of_int_range(1000);
        }
        Single::from_i64(expire_timeout as i64).over(Single::from_i64(1000))
    } else {
        Single::from_i64(default_seconds)
    };
    asked.max(Single::from_i64(1))
}

/// The server's side of the service.
pub struct Server {
    /// The next id to hand out, so that clients can later replace or close a
    /// specific notification.
    pub next_id: u32,
}

impl Server {
    pub fn new() -> (server: Server)
        ensures
            server.next_id == 1,
    {
        Server { next_id: 1 }
    }

    /// The id of a notification. A client's choice is honored as it is, so the
    /// counter is pushed past it to keep a later id of the server's own from
    /// colliding with a card that is still live.
    fn assign_id(&mut self, replaces_id: u32) -> (id: u32)
        ensures
            id == issued_id(old(self).next_id, replaces_id),
            final(self).next_id == counter_after(old(self).next_id, replaces_id),
    {
        if replaces_id != 0 {
            if self.next_id <= replaces_id && replaces_id < u32::MAX {
                self.next_id = replaces_id + 1;
            }
            replaces_id
        } else {
            let id: u32 = self.next_id;
            self.next_id = if id == u32::MAX {
                0
            } else {
                id + 1
            };
            id
        }
    }

    /// Takes in a notification: the id to answer with, and the message for the
    /// notifier. `default_seconds` is the configured duration.
    pub fn notify(
        &mut self,
        app_name: String,
        replaces_id: u32,
        app_icon: String,
        summary: String,
        body: String,
        hints: Vec<Hint>,
        expire_timeout: i32,
        default_seconds: i64,
    ) -> (r: (u32, UserEvent))
        ensures
            r.0 == issued_id(old(self).next_id, replaces_id),
            final(self).next_id == counter_after(old(self).next_id, replaces_id),
            r.1 is NewNotification,
            r.1->NewNotification_id == r.0,
            r.1->app_name == app_name,
            r.1->summary == summary,
            r.1->body == body,
            text_of(r.1->image_path) == preview_path(hints@, app_icon@),
            r.1->duration == display_seconds(expire_timeout as int, default_seconds as int),
    {
        let id: u32 = self.assign_id(replaces_id);
        let duration: Single = duration(expire_timeout, default_seconds);
        let image_path: Option<String> = image_path(&hints, &app_icon);
        (id, UserEvent::NewNotification { id, app_name, summary, body, image_path, duration })
    }
}

/// What the server can do.
pub fn get_capabilities() -> (c: Vec<String>)
    ensures
        c@.len() == 3,
        c@[0]@ == "body"@,
        c@[1]@ == "actions"@,
        c@[2]@ == "icon-static"@,
{
    let mut c: Vec<String> = Vec::new();
    c.push("body".to_string());
    c.push("actions".to_string());
    c.push("icon-static".to_string());
    c
}

/// The server's name, vendor and version, and the version of the service that
/// it provides.
pub fn get_server_information() -> (i: (String, String, String, String))
    ensures
        i.0@ == "cce-notifier"@,
        i.1@ == "CCEC Project"@,
        i.2@ == "0.1.0"@,
        i.3@ == "1.2"@,
{
    (
        "cce-notifier".to_string(),
        "CCEC Project".to_string(),
        "0.1.0".to_string(),
        "1.2".to_string(),
    )
}

/// The sound that the configured bell stands for; `None` for no sound.
pub open spec fn sound_of(bell: Seq<char>) -> Option<Seq<char>> {
    if bell == "bell"@ {
        Some("bell"@)
    } else if bell == "dialog"@ {
        Some("dialog-information"@)
    } else if bell == "message"@ {
        Some("message"@)
    } else {
        None
    }
}

/// The sound to play for the configured bell.
pub fn sound_event(bell: &String) -> (sound: Option<String>)
    ensures
        text_of(sound) == sound_of(bell@),
{
    if *bell == "bell".to_string() {
        Some("bell".to_string())
    } else if *bell == "dialog".to_string() {
        Some("dialog-information".to_string())
    } else if *bell == "message".to_string() {
        Some("message".to_string())
    } else {
        None
    }
}

/// Where the counter stands after a row of requests.
pub open spec fn counter_after_all(next: u32, requests: Seq<u32>) -> u32
    decreases requests.len(),
{
    if requests.len() == 0 {
        next
    } else {
        counter_after(counter_after_all(next, requests.drop_last()), requests.last())
    }
}

/// The id that request `j` of a row gets.
pub open spec fn id_in_row(next: u32, requests: Seq<u32>, j: int) -> u32 {
    issued_id(counter_after_all(next, requests.take(j)), requests[j])
}

/// Whether the counter has not started over in the course of a row of requests.
pub open spec fn never_started_over(next: u32, requests: Seq<u32>) -> bool {
    forall|k: int|
        0 <= k < requests.len() && requests[k] == 0 ==> counter_after_all(
            next,
            #[trigger] requests.take(k),
        ) < u32::MAX
}

/// Every id handed out so far is below the counter, which does not go back,
/// except where a client chose the last id.
proof fn lemma_ids_below_counter(next: u32, requests: Seq<u32>, i: int)
    requires
        never_started_over(next, requests),
    ensures
        next <= counter_after_all(next, requests),
        0 <= i < requests.len() && requests[i] < u32::MAX ==> id_in_row(next, requests, i)
            < counter_after_all(next, requests),
    decreases requests.len(),
{
    if requests.len() > 0 {
        let k: int = requests.len() - 1;
        let rest: Seq<u32> = requests.drop_last();
        assert(requests.take(k) == rest);
        assert forall|j: int| 0 <= j < rest.len() && rest[j] == 0 implies counter_after_all(
            next,
            #[trigger] rest.take(j),
        ) < u32::MAX by {
            assert(rest.take(j) == requests.take(j));
        }
        lemma_ids_below_counter(next, rest, i);
        if 0 <= i < k {
            assert(rest.take(i) == requests.take(i));
        }
    }
}

/// An id of the server's own choice differs from every id handed out before,
/// whoever chose that, as long as the counter has not started over; and it is
/// never below the first. Only the last id can be the server's own choice after
/// a client has chosen it.
pub proof fn server_ids_are_fresh(next: u32, requests: Seq<u32>, i: int, j: int)
    requires
        0 <= j < requests.len(),
        requests[j] == 0,
        never_started_over(next, requests.take(j)),
        0 <= i < j && requests[i] == u32::MAX ==> id_in_row(next, requests, j) < u32::MAX,
    ensures
        next <= id_in_row(next, requests, j),
        0 <= i < j ==> id_in_row(next, requests, i) != id_in_row(next, requests, j),
{
    let before: Seq<u32> = requests.take(j);
    lemma_ids_below_counter(next, before, i);
    if 0 <= i < j {
        assert(before.take(i) == requests.take(i));
    }
}

/// Every notification is displayed for at least a second.
pub proof fn displayed_for_a_second(expire_timeout: int, default_seconds: int)
    requires
        i32::MIN <= expire_timeout <= i32::MAX,
    ensures
        Single::of_int(1).at_most(display_seconds(expire_timeout, default_seconds)),
        !display_seconds(expire_timeout, default_seconds).not_above_zero(),
{
    crate::single::lemma_one();
    crate::single::lemma_of_int_is_a_number(default_seconds);
}

/// Whether no key occurs twice.
pub open spec fn keys_are_distinct(hints: Seq<Hint>) -> bool {
    forall|i: int, j: int|
        0 <= i < j < hints.len() ==> (#[trigger] hints[i]).key@ != (#[trigger] hints[j]).key@
}

/// The string of a hint, by its place.
proof fn lemma_hint_at(hints: Seq<Hint>, key: Seq<char>, i: int)
    requires
        keys_are_distinct(hints),
        0 <= i < hints.len(),
        hints[i].key@ == key,
    ensures
        hint_string(hints, key) == match hints[i].value {
            HintValue::Str(s) => Some(s@),
            HintValue::Other => None,
        },
    decreases hints.len(),
{
    if i > 0 {
        assert(hints[0].key@ != hints[i].key@);
        let rest: Seq<Hint> = hints.skip(1);
        assert forall|a: int, b: int| 0 <= a < b < rest.len() implies (#[trigger] rest[a]).key@ != (
        #[trigger] rest[b]).key@ by {
            assert(hints[a + 1].key@ != hints[b + 1].key@);
        }
        lemma_hint_at(rest, key, i - 1);
    }
}

/// There is no string for a key that does not occur.
proof fn lemma_no_hint(hints: Seq<Hint>, key: Seq<char>)
    requires
        forall|i: int| 0 <= i < hints.len() ==> (#[trigger] hints[i]).key@ != key,
    ensures
        hint_string(hints, key) is None,
    decreases hints.len(),
{
    if hints.len() > 0 {
        assert(hints[0].key@ != key);
        let rest: Seq<Hint> = hints.skip(1);
        assert forall|i: int| 0 <= i < rest.len() implies (#[trigger] rest[i]).key@ != key by {
            assert(hints[i + 1].key@ != key);
        }
        lemma_no_hint(rest, key);
    }
}

/// The order in which hints come makes no difference.
pub proof fn hint_order_is_irrelevant(a: Seq<Hint>, b: Seq<Hint>, app_icon: Seq<char>)
    requires
        keys_are_distinct(a),
        keys_are_distinct(b),
        forall|h: Hint| a.contains(h) <==> b.contains(h),
    ensures
        preview_path(a, app_icon) == preview_path(b, app_icon),
{
    lemma_same_hint(a, b, "image-path"@);
    lemma_same_hint(a, b, "image_path"@);
}

proof fn lemma_same_hint(a: Seq<Hint>, b: Seq<Hint>, key: Seq<char>)
    requires
        keys_are_distinct(a),
        keys_are_distinct(b),
        forall|h: Hint| a.contains(h) <==> b.contains(h),
    ensures
        hint_string(a, key) == hint_string(b, key),
{
    if exists|i: int| 0 <= i < a.len() && (#[trigger] a[i]).key@ == key {
        let i: int = choose|i: int| 0 <= i < a.len() && (#[trigger] a[i]).key@ == key;
        assert(b.contains(a[i]));
        let j: int = choose|j: int| 0 <= j < b.len() && b[j] == a[i];
        lemma_hint_at(a, key, i);
        lemma_hint_at(b, key, j);
    } else {
        assert forall|j: int| 0 <= j < b.len() implies (#[trigger] b[j]).key@ != key by {
            assert(a.contains(b[j]));
            let i: int = choose|i: int| 0 <= i < a.len() && a[i] == b[j];
            assert(a[i].key@ != key);
        }
        lemma_no_hint(a, key);
        lemma_no_hint(b, key);
    }
}

/// The id that a client chose is the id that it gets. The counter moves only
/// to get past it, and just that far.
pub proof fn chosen_id_is_honored(next: u32, replaces_id: u32)
    requires
        replaces_id != 0,
    ensures
        issued_id(next, replaces_id) == replaces_id,
        counter_after(next, replaces_id) == next || counter_after(next, replaces_id) == replaces_id
            + 1,
        counter_after(next, replaces_id) >= next,
        replaces_id < u32::MAX ==> counter_after(next, replaces_id) > replaces_id,
{
}

/// Without a choice the client gets the number that the counter stands at, and
/// the counter goes on by one.
pub proof fn own_ids_are_counted(next: u32)
    ensures
        issued_id(next, 0) == next,
        next < u32::MAX ==> counter_after(next, 0) == next + 1,
        next == u32::MAX ==> counter_after(next, 0) == 0,
{
}

/// A client that updates a card gets back the id that it got before, as often
/// as it does so, whatever others ask for in between.
pub proof fn update_gets_the_same_id(next: u32, requests: Seq<u32>, i: int, j: int)
    requires
        0 <= i < j < requests.len(),
        requests[j] == id_in_row(next, requests, i),
        requests[j] != 0,
    ensures
        id_in_row(next, requests, j) == id_in_row(next, requests, i),
{
}

/// What the client asks for counts from a second on; what is positive but less
/// becomes a second. Anything else gets the default, and that too is at least
/// a second.
pub proof fn time_asked_for_is_given(expire_timeout: int, default_seconds: int)
    requires
        expire_timeout <= i32::MAX,
    ensures
        expire_timeout >= 1000 ==> display_seconds(expire_timeout, default_seconds)
            == Single::of_int(expire_timeout).quotient(Single::of_int(1000)),
        0 < expire_timeout < 1000 ==> display_seconds(expire_timeout, default_seconds)
            == Single::of_int(1),
        expire_timeout <= 0 && default_seconds >= 1 ==> display_seconds(
            expire_timeout,
            default_seconds,
        ) == Single::of_int(default_seconds),
        expire_timeout <= 0 && default_seconds < 1 ==> display_seconds(
            expire_timeout,
            default_seconds,
        ) == Single::of_int(1),
{
    let t: int = power2::pow2(149) as int;
    power2::lemma_pow2_pos(149);
    crate::single::lemma_one();
    if expire_timeout > 0 {
        crate::single::lemma_of_int_exact(1000);
        crate::single::lemma_of_int_range(expire_timeout);
        let s: Single = Single::of_int(expire_timeout);
        let c: int = Single::of_int(1000).unsigned();
        let d: int = rounding::magnitude(c);
        let x: int = rounding::magnitude(s.unsigned());
        assert(d > 0 && t * d == d * t) by (nonlinear_arith)
            requires
                d == 1000 * t,
                t > 0,
        ;
        rounding::lemma_magnitude_increases(0, s.unsigned());
        assert(x * t >= 0) by (nonlinear_arith)
            requires
                x >= 0,
                t > 0,
        ;
        rounding::lemma_rounded_rounds(x * t, d);
        crate::single::lemma_with_sign(false, rounding::rounded(x * t, d));
        if expire_timeout >= 1000 {
            assert(d * 1 <= expire_timeout * t) by (nonlinear_arith)
                requires
                    d == 1000 * t,
                    expire_timeout >= 1000,
                    t > 0,
            ;
            rounding::lemma_rounded_at_least(expire_timeout * t, 1, c);
            if c < s.unsigned() {
                rounding::lemma_magnitude_increases(c, s.unsigned());
            }
            assert(t * d <= x * t) by (nonlinear_arith)
                requires
                    d <= x,
                    t > 0,
            ;
            rounding::lemma_rounded_at_least(x * t, d, 0x3f80_0000);
        } else {
            crate::single::lemma_of_int_exact(expire_timeout);
            assert(x * t <= t * d) by (nonlinear_arith)
                requires
                    x == expire_timeout * t,
                    d == 1000 * t,
                    expire_timeout < 1000,
                    t > 0,
            ;
            rounding::lemma_rounded_at_most(x * t, d, 0x3f80_0000);
        }
    } else {
        crate::single::lemma_of_int_is_a_number(default_seconds);
        let n: int = default_seconds * t;
        if default_seconds >= 1 {
            assert(t * 1 <= n) by (nonlinear_arith)
                requires
                    n == default_seconds * t,
                    default_seconds >= 1,
                    t > 0,
            ;
            rounding::lemma_rounded_at_least(n, 1, 0x3f80_0000);
            rounding::lemma_rounded_rounds(n, 1);
            crate::single::lemma_with_sign(false, rounding::rounded(n, 1));
        } else {
            crate::single::of_int_is_nearest(default_seconds, Single { bits: 0 });
            assert(n <= 0) by (nonlinear_arith)
                requires
                    n == default_seconds * t,
                    default_seconds <= 0,
                    t > 0,
            ;
            if default_seconds == 0 {
                assert(n == 0) by (nonlinear_arith)
                    requires
                        n == default_seconds * t,
                        default_seconds == 0,
                ;
                rounding::lemma_rounded_exact(n, 1, 0);
                crate::single::lemma_with_sign(false, 0);
            }
        }
    }
}

/// The first hint with a key decides: its string where it is one, and nothing
/// otherwise. Without such a hint there is nothing either.
pub proof fn first_hint_of_a_key_decides(hints: Seq<Hint>, key: Seq<char>, i: int)
    requires
        0 <= i <= hints.len(),
        i < hints.len() ==> hints[i].key@ == key,
        forall|j: int| 0 <= j < i ==> (#[trigger] hints[j]).key@ != key,
    ensures
        i == hints.len() ==> hint_string(hints, key) is None,
        i < hints.len() ==> match hints[i].value {
            HintValue::Str(s) => hint_string(hints, key) == Some(s@),
            HintValue::Other => hint_string(hints, key) is None,
        },
    decreases hints.len(),
{
    if i > 0 {
        assert(hints[0].key@ != key);
        let rest: Seq<Hint> = hints.skip(1);
        assert forall|j: int| 0 <= j < i - 1 implies (#[trigger] rest[j]).key@ != key by {
            assert(hints[j + 1].key@ != key);
        }
        first_hint_of_a_key_decides(rest, key, i - 1);
    }
}

/// The preview comes from the standard hint where that is a string, whatever
/// else there is; then from the older spelling; then from an icon whose first
/// character is a slash; and from nowhere else.
pub proof fn preview_sources_in_their_order(hints: Seq<Hint>, app_icon: Seq<char>)
    ensures
        ({
            let standard = hint_string(hints, "image-path"@);
            let older = hint_string(hints, "image_path"@);
            let path = preview_path(hints, app_icon);
            &&& standard is Some ==> path == standard
            &&& standard is None && older is Some ==> path == older
            &&& standard is None && older is None ==> {
                &&& path is Some <==> app_icon.len() > 0 && app_icon.first() == '/'
                &&& path is Some ==> path == Some(app_icon)
            }
        }),
{
}

/// A string that may be missing is there just where its characters are.
pub proof fn text_is_the_characters(s: Option<String>)
    ensures
        s is None <==> text_of(s) is None,
        s matches Some(string) ==> text_of(s) == Some(string@),
{
}

/// There are three bells with a sound each, and no other bell has one.
pub proof fn three_bells_have_a_sound(bell: Seq<char>)
    ensures
        sound_of(bell) is Some <==> bell == "bell"@ || bell == "dialog"@ || bell == "message"@,
        bell == "bell"@ ==> sound_of(bell) == Some("bell"@),
        bell == "dialog"@ ==> sound_of(bell) == Some("dialog-information"@),
        bell == "message"@ ==> sound_of(bell) == Some("message"@),
{
    reveal_strlit("bell");
    reveal_strlit("dialog");
    reveal_strlit("message");
    assert("bell"@.len() == 4 && "dialog"@.len() == 6 && "message"@.len() == 7);
}

} // verus!
