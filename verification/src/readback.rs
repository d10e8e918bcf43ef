//! What the texts of the server say to one who reads them as JSON.
use crate::config::{ratelimit_fields, ratelimit_text, Config, Ratelimit};
use crate::json::{blanks, digits, is_digit, member_parts, with_commas};
use crate::json::{item_parts, lemma_item_parts, lemma_member_parts};
use crate::model::{kind_name, PayloadView};
use crate::room::{announcement_text, room_info_fields, room_info_text, MetaDataView, RoomView};
use crate::state::{greeting_fields, greeting_text, limit_fields, public_rooms};
use crate::text::{
    decimal, digit, escaped, escaped_char, json_string, member_text,
    members_text, object_text, strings_text,
};
use vstd::prelude::*;

verus! {

/// In an object, the part is the member with that key and that value: the quoted key
/// starts at `from`, and the value stands between `start` and `end`.
pub open spec fn says_at(
    part: Seq<char>,
    key: Seq<char>,
    value: Seq<char>,
    from: int,
    colon: int,
    start: int,
    end: int,
) -> bool {
    let to = from + key.len() + 2;
    &&& 0 <= from
    &&& to <= colon < start <= end <= part.len()
    &&& blanks(part.subrange(0, from))
    &&& part.subrange(from, to) == seq!['"'] + key + seq!['"']
    &&& blanks(part.subrange(to, colon))
    &&& part[colon] == ':'
    &&& blanks(part.subrange(colon + 1, start))
    &&& part.subrange(start, end) == value
    &&& blanks(part.subrange(end, part.len() as int))
}

/// In an object, the part is the member with that key and that value.
pub open spec fn part_says(part: Seq<char>, key: Seq<char>, value: Seq<char>) -> bool {
    exists|from: int, colon: int, start: int, end: int| #[trigger]
        says_at(part, key, value, from, colon, start, end)
}

/// Read as JSON, the text is an object with exactly these members, in this order.
pub open spec fn reads_as(text: Seq<char>, members: Seq<(Seq<char>, Seq<char>)>) -> bool {
    exists|parts: Seq<Seq<char>>|
        {
            &&& parts.len() == members.len()
            &&& text == seq!['{'] + #[trigger] with_commas(parts) + seq!['}']
            &&& forall|i: int|
                0 <= i < parts.len() ==> part_says(
                    #[trigger] parts[i],
                    members[i].0,
                    members[i].1,
                )
        }
}

/// In a list, the part is that item: it starts at `start`.
pub open spec fn item_at(part: Seq<char>, item: Seq<char>, start: int) -> bool {
    &&& 0 <= start
    &&& start + item.len() <= part.len()
    &&& blanks(part.subrange(0, start))
    &&& part.subrange(start, start + item.len()) == item
    &&& blanks(part.subrange(start + item.len(), part.len() as int))
}

/// In a list, the part is that item.
pub open spec fn part_is(part: Seq<char>, item: Seq<char>) -> bool {
    exists|start: int| #[trigger] item_at(part, item, start)
}

/// Read as JSON, the text is a list of exactly these strings, in this order.
pub open spec fn lists(text: Seq<char>, strings: Seq<Seq<char>>) -> bool {
    exists|parts: Seq<Seq<char>>|
        {
            &&& parts.len() == strings.len()
            &&& text == seq!['['] + #[trigger] with_commas(parts) + seq![']']
            &&& forall|i: int|
                0 <= i < parts.len() ==> part_is(#[trigger] parts[i], json_string(strings[i]))
        }
}

proof fn lemma_part_says(spaced: bool, indent: bool, key: Seq<char>, value: Seq<char>)
    ensures
        part_says(
            (if indent {
                seq![' ']
            } else {
                seq![]
            }) + member_text(spaced, key, value),
            key,
            value,
        ),
{
    let margin: Seq<char> = if indent {
        seq![' ']
    } else {
        seq![]
    };
    let s = margin + member_text(spaced, key, value);
    let from = margin.len() as int;
    let colon = from + key.len() + 2;
    let start = if spaced {
        colon + 2
    } else {
        colon + 1
    };
    let end = s.len() as int;
    assert(s.subrange(from, colon) =~= seq!['"'] + key + seq!['"']);
    assert(s.subrange(start, end) =~= value);
    assert(says_at(s, key, value, from, colon, start, end));
}

/// An object that is written from keys and values reads as these.
pub proof fn objects_read_as_their_members(spaced: bool, fields: Seq<(Seq<char>, Seq<char>)>)
    ensures
        reads_as(object_text(spaced, fields), fields),
{
    let parts = member_parts(spaced, fields);
    lemma_member_parts(spaced, fields);
    assert forall|i: int| 0 <= i < parts.len() implies part_says(
        #[trigger] parts[i],
        fields[i].0,
        fields[i].1,
    ) by {
        lemma_part_says(spaced, spaced && i > 0, fields[i].0, fields[i].1);
    }
    assert(object_text(spaced, fields) == seq!['{'] + with_commas(parts) + seq!['}']);
}

/// A list that is written from strings lists these.
pub proof fn lists_list_their_strings(strings: Seq<Seq<char>>)
    ensures
        lists(strings_text(strings), strings),
{
    let items = strings.map_values(|s: Seq<char>| json_string(s));
    let parts = item_parts(items);
    lemma_item_parts(items);
    assert forall|i: int| 0 <= i < parts.len() implies part_is(
        #[trigger] parts[i],
        json_string(strings[i]),
    ) by {
        let item = json_string(strings[i]);
        assert(items[i] == item);
        let start: int = if i > 0 {
            1
        } else {
            0
        };
        assert(parts[i].subrange(start, start + item.len()) =~= item);
        assert(item_at(parts[i], item, start));
    }
    assert(strings_text(strings) == seq!['['] + with_commas(parts) + seq![']']);
}

/// A payload says its type, and its room, its user, its id and its body where there is
/// one, and nothing else.
pub proof fn payloads_say_what_they_hold(payload: PayloadView)
    ensures
        reads_as(
            payload.text(),
            seq![("type"@, json_string(kind_name(payload.kind)))] + (if payload.room.len() > 0 {
                seq![("room"@, json_string(payload.room))]
            } else {
                seq![]
            }) + (if payload.user.len() > 0 {
                seq![("user"@, json_string(payload.user))]
            } else {
                seq![]
            }) + (if payload.id is Some {
                seq![("id"@, payload.id->0)]
            } else {
                seq![]
            }) + (if payload.body is Some {
                seq![("body"@, payload.body->0)]
            } else {
                seq![]
            }),
        ),
{
    objects_read_as_their_members(false, payload.fields());
}

/// What tells of someone who came or left says what happened, where, and to whom.
pub proof fn announcements_say_who_and_where(what: Seq<char>, room: Seq<char>, user: Seq<char>)
    ensures
        reads_as(
            announcement_text(what, room, user),
            seq![
                ("type"@, json_string(what)),
                ("room"@, json_string(room)),
                ("user"@, json_string(user)),
            ],
        ),
{
    objects_read_as_their_members(
        true,
        seq![("type"@, json_string(what)), ("room"@, json_string(room)), ("user"@, json_string(user))],
    );
}

/// A ratelimit says its four numbers.
pub proof fn ratelimits_say_their_numbers(limit: Ratelimit)
    ensures
        reads_as(
            ratelimit_text(limit),
            seq![
                ("max_tokens"@, decimal(limit.max_tokens as nat)),
                ("tokens"@, decimal(limit.tokens as nat)),
                ("refill_amount"@, decimal(limit.refill_amount as nat)),
                ("refill_millis"@, decimal(limit.refill_millis as nat)),
            ],
        ),
{
    objects_read_as_their_members(true, ratelimit_fields(limit));
}

/// What tells about a room says its name, whether it is read-only, what it has to tell
/// about itself, its ratelimits where it has any, and the users.
pub proof fn room_infos_say_what_a_room_is_like(
    room: Seq<char>,
    metadata: MetaDataView,
    users: Seq<Seq<char>>,
)
    ensures
        reads_as(
            room_info_text(room, metadata, users),
            seq![
                ("type"@, json_string("room_info"@)),
                ("room"@, json_string(room)),
                (
                    "read_only"@,
                    if metadata.read_only {
                        "true"@
                    } else {
                        "false"@
                    },
                ),
                (
                    "extra_info"@,
                    if metadata.extra_info is Some {
                        metadata.extra_info->0
                    } else {
                        "null"@
                    },
                ),
            ] + (if metadata.msg_freq_ratelimit is Some {
                seq![("msg_freq_ratelimit"@, ratelimit_text(metadata.msg_freq_ratelimit->0))]
            } else {
                seq![]
            }) + (if metadata.msg_size_ratelimit is Some {
                seq![("msg_size_ratelimit"@, ratelimit_text(metadata.msg_size_ratelimit->0))]
            } else {
                seq![]
            }) + seq![("users"@, strings_text(users))],
        ),
        lists(strings_text(users), users),
{
    objects_read_as_their_members(true, room_info_fields(room, metadata, users));
    lists_list_their_strings(users);
}

/// A greeting says the public rooms and the limits of the configuration.
pub proof fn greetings_say_the_limits(
    rooms: Map<Seq<char>, RoomView>,
    names: Seq<Seq<char>>,
    config: Config,
) -> (limits: Seq<char>)
    ensures
        reads_as(
            greeting_text(rooms, names, config),
            seq![
                ("type"@, json_string("hello"@)),
                ("public_rooms"@, strings_text(public_rooms(rooms, names))),
                ("config"@, limits),
            ],
        ),
        lists(strings_text(public_rooms(rooms, names)), public_rooms(rooms, names)),
        reads_as(
            limits,
            seq![
                ("connections_per_ip"@, decimal(config.connections_per_ip as nat)),
                ("msg_freq_ratelimit"@, ratelimit_text(config.msg_freq_ratelimit)),
                ("msg_size_ratelimit"@, ratelimit_text(config.msg_size_ratelimit)),
                ("max_message_size"@, decimal(config.max_message_size as nat)),
            ],
        ),
{
    let limits = object_text(true, limit_fields(config));
    objects_read_as_their_members(true, limit_fields(config));
    objects_read_as_their_members(true, greeting_fields(rooms, names, config));
    lists_list_their_strings(public_rooms(rooms, names));
    limits
}

/// The number that decimal digits say.
pub open spec fn number_said(text: Seq<char>) -> int
    decreases text.len(),
{
    if text.len() == 0 {
        0
    } else {
        10 * number_said(text.drop_last()) + (text.last() as int - '0' as int)
    }
}

/// Decimal digits say their number, and are nothing but digits.
pub proof fn decimals_say_their_number(n: nat)
    ensures
        number_said(decimal(n)) == n,
        digits(decimal(n)),
    decreases n,
{
    let text = decimal(n);
    if n >= 10 {
        decimals_say_their_number(n / 10);
        assert(text.drop_last() =~= decimal(n / 10));
    } else {
        assert(text.drop_last() =~= Seq::<char>::empty());
        assert(number_said(text.drop_last()) == 0);
    }
}

proof fn lemma_escaped_first(s: Seq<char>)
    requires
        s.len() > 0,
    ensures
        escaped(s) == escaped_char(s[0]) + escaped(s.drop_first()),
    decreases s.len(),
{
    if s.len() == 1 {
        assert(s.drop_last() =~= Seq::<char>::empty());
        assert(s.drop_first() =~= Seq::<char>::empty());
        assert(escaped(s) =~= escaped_char(s[0]) + escaped(s.drop_first()));
    } else {
        lemma_escaped_first(s.drop_last());
        assert(s.drop_last().drop_first() =~= s.drop_first().drop_last());
        assert(escaped(s) =~= escaped_char(s[0]) + escaped(s.drop_first()));
    }
}

proof fn lemma_first_escape(a: char, rest: Seq<char>, b: char, other: Seq<char>)
    requires
        escaped_char(a) + rest == escaped_char(b) + other,
    ensures
        a == b,
        rest == other,
{
    let one = escaped_char(a);
    let two = escaped_char(b);
    let whole = one + rest;
    assert(whole[0] == one[0] && whole[0] == two[0]);
    if one.len() >= 2 {
        assert(whole[1] == one[1]);
    }
    if two.len() >= 2 {
        assert(whole[1] == two[1]);
    }
    if one.len() == 6 && two.len() == 6 {
        assert(whole[4] == one[4] && whole[4] == two[4]);
        assert(whole[5] == one[5] && whole[5] == two[5]);
        assert(a as int == a as int / 16 * 16 + a as int % 16);
        assert(b as int == b as int / 16 * 16 + b as int % 16);
    }
    assert(rest =~= whole.skip(one.len() as int));
    assert(other =~= whole.skip(two.len() as int));
}

proof fn lemma_escapes_are_told_apart(a: Seq<char>, b: Seq<char>)
    requires
        escaped(a) == escaped(b),
    ensures
        a == b,
    decreases a.len(),
{
    if a.len() > 0 {
        lemma_escaped_first(a);
        if b.len() > 0 {
            lemma_escaped_first(b);
            lemma_first_escape(
                a[0],
                escaped(a.drop_first()),
                b[0],
                escaped(b.drop_first()),
            );
            lemma_escapes_are_told_apart(a.drop_first(), b.drop_first());
            assert(a =~= seq![a[0]] + a.drop_first());
            assert(b =~= seq![b[0]] + b.drop_first());
        } else {
            assert(escaped(a).len() >= 1);
        }
    } else if b.len() > 0 {
        lemma_escaped_first(b);
        assert(escaped(b).len() >= 1);
    }
    assert(a =~= b);
}

/// Different texts are quoted differently.
pub proof fn quoted_texts_are_told_apart(a: Seq<char>, b: Seq<char>)
    requires
        json_string(a) == json_string(b),
    ensures
        a == b,
{
    let p = json_string(a);
    let q = json_string(b);
    assert(escaped(a) =~= p.subrange(1, p.len() - 1));
    assert(escaped(b) =~= q.subrange(1, q.len() - 1));
    lemma_escapes_are_told_apart(a, b);
}

/// Equal texts with equal ends have equal beginnings.
proof fn lemma_same_start(start: Seq<char>, other: Seq<char>, end: Seq<char>)
    requires
        start + end == other + end,
    ensures
        start == other,
{
    assert((start + end).len() == (other + end).len());
    assert(start =~= (start + end).take(start.len() as int));
    assert(other =~= (other + end).take(other.len() as int));
}

/// Equal texts with equal beginnings have equal ends.
proof fn lemma_same_end(start: Seq<char>, end: Seq<char>, other: Seq<char>)
    requires
        start + end == start + other,
    ensures
        end == other,
{
    assert(end =~= (start + end).skip(start.len() as int));
    assert(other =~= (start + other).skip(start.len() as int));
}

/// What tells of a user is different for different rooms.
pub proof fn announcements_tell_rooms_apart(
    what: Seq<char>,
    room: Seq<char>,
    other: Seq<char>,
    user: Seq<char>,
)
    requires
        announcement_text(what, room, user) == announcement_text(what, other, user),
    ensures
        room == other,
{
    let head = seq!['{'] + member_text(true, "type"@, json_string(what)) + seq![',', ' '] + seq![
        '"',
    ] + "room"@ + seq!['"', ':', ' '];
    let tail = seq![',', ' '] + member_text(true, "user"@, json_string(user)) + seq!['}'];
    lemma_announcement(what, room, user);
    lemma_announcement(what, other, user);
    lemma_same_start(head + json_string(room), head + json_string(other), tail);
    lemma_same_end(head, json_string(room), json_string(other));
    quoted_texts_are_told_apart(room, other);
}

proof fn lemma_announcement(what: Seq<char>, room: Seq<char>, user: Seq<char>)
    ensures
        announcement_text(what, room, user) == (seq!['{'] + member_text(
            true,
            "type"@,
            json_string(what),
        ) + seq![',', ' '] + seq!['"'] + "room"@ + seq!['"', ':', ' '] + json_string(room)) + (seq![
            ',',
            ' ',
        ] + member_text(true, "user"@, json_string(user)) + seq!['}']),
{
    let fields = seq![
        ("type"@, json_string(what)),
        ("room"@, json_string(room)),
        ("user"@, json_string(user)),
    ];
    let two = fields.drop_last();
    assert(two =~= seq![("type"@, json_string(what)), ("room"@, json_string(room))]);
    assert(two.drop_last() =~= seq![("type"@, json_string(what))]);
    assert(members_text(true, two.drop_last()) == member_text(true, "type"@, json_string(what)));
    assert(members_text(true, two) == member_text(true, "type"@, json_string(what)) + seq![',', ' ']
        + member_text(true, "room"@, json_string(room)));
    assert(members_text(true, fields) == members_text(true, two) + seq![',', ' '] + member_text(
        true,
        "user"@,
        json_string(user),
    ));
    let m = member_text(true, "type"@, json_string(what));
    let r = json_string(room);
    let u = member_text(true, "user"@, json_string(user));
    assert(seq!['{'] + (m + seq![',', ' '] + (seq!['"'] + "room"@ + seq!['"', ':', ' '] + r) + seq![
        ',',
        ' ',
    ] + u) + seq!['}'] =~= (seq!['{'] + m + seq![',', ' '] + seq!['"'] + "room"@ + seq![
        '"',
        ':',
        ' ',
    ] + r) + (seq![',', ' '] + u + seq!['}']));
}

proof fn lemma_decimals_differ(a: nat, b: nat)
    requires
        decimal(a) == decimal(b),
    ensures
        a == b,
    decreases a,
{
    let one = decimal(a);
    let other = decimal(b);
    lemma_decimal_digits(a);
    lemma_decimal_digits(b);
    assert(one.last() == digit(a % 10));
    assert(other.last() == digit(b % 10));
    if a < 10 {
        if b >= 10 {
            lemma_decimal_digits(b / 10);
            assert(other.len() == decimal(b / 10).len() + 1);
        }
    } else {
        if b < 10 {
            lemma_decimal_digits(a / 10);
            assert(one.len() == decimal(a / 10).len() + 1);
        }
        assert(one.drop_last() =~= decimal(a / 10));
        assert(other.drop_last() =~= decimal(b / 10));
        lemma_decimals_differ(a / 10, b / 10);
    }
}

proof fn lemma_decimal_digits(n: nat)
    ensures
        digits(decimal(n)),
    decreases n,
{
    if n >= 10 {
        lemma_decimal_digits(n / 10);
    }
}

/// Where two numbers follow something else than digits, equal texts have equal numbers
/// and equal beginnings.
proof fn lemma_number_starts(start: Seq<char>, a: nat, other: Seq<char>, b: nat)
    requires
        start + decimal(a) == other + decimal(b),
        start.len() > 0,
        other.len() > 0,
        !is_digit(start.last()),
        !is_digit(other.last()),
    ensures
        a == b,
        start == other,
{
    let one = decimal(a);
    let two = decimal(b);
    let whole = start + one;
    let same = other + two;
    lemma_decimal_digits(a);
    lemma_decimal_digits(b);
    assert(whole.len() == start.len() + one.len());
    assert(same.len() == other.len() + two.len());
    assert(whole[start.len() - 1] == start.last());
    assert(same[other.len() - 1] == other.last());
    if start.len() < other.len() {
        assert(whole[other.len() - 1] == one[other.len() - 1 - start.len()]);
    } else if other.len() < start.len() {
        assert(same[start.len() - 1] == two[start.len() - 1 - other.len()]);
    }
    assert(start =~= whole.take(start.len() as int));
    assert(other =~= same.take(other.len() as int));
    assert(one =~= whole.skip(start.len() as int));
    assert(two =~= same.skip(other.len() as int));
    lemma_decimals_differ(a, b);
}

/// Members with the given keys and numbers.
spec fn number_fields(keys: Seq<Seq<char>>, numbers: Seq<nat>) -> Seq<(Seq<char>, Seq<char>)> {
    Seq::new(keys.len(), |i: int| (keys[i], decimal(numbers[i])))
}

/// What the members say before the last number.
spec fn before_last_number(keys: Seq<Seq<char>>, numbers: Seq<nat>) -> Seq<char> {
    (if keys.len() == 1 {
        seq![]
    } else {
        members_text(true, number_fields(keys.drop_last(), numbers.drop_last())) + seq![',', ' ']
    }) + (seq!['"'] + keys.last() + seq!['"', ':', ' '])
}

proof fn lemma_last_number(keys: Seq<Seq<char>>, numbers: Seq<nat>)
    requires
        keys.len() > 0,
        keys.len() == numbers.len(),
    ensures
        members_text(true, number_fields(keys, numbers)) == before_last_number(keys, numbers)
            + decimal(numbers.last()),
        before_last_number(keys, numbers).len() > 0,
        before_last_number(keys, numbers).last() == ' ',
{
    let fields = number_fields(keys, numbers);
    assert(fields.drop_last() =~= number_fields(keys.drop_last(), numbers.drop_last()));
    assert(members_text(true, fields) =~= before_last_number(keys, numbers) + decimal(
        numbers.last(),
    ));
}

/// Where equal texts end with members of the same keys, the numbers of these are equal
/// and so is what stands before them.
proof fn lemma_numbers_end(
    start: Seq<char>,
    one: Seq<nat>,
    other_start: Seq<char>,
    other: Seq<nat>,
    keys: Seq<Seq<char>>,
)
    requires
        keys.len() > 0,
        keys.len() == one.len(),
        keys.len() == other.len(),
        start + members_text(true, number_fields(keys, one)) == other_start + members_text(
            true,
            number_fields(keys, other),
        ),
    ensures
        one == other,
        start == other_start,
    decreases keys.len(),
{
    lemma_last_number(keys, one);
    lemma_last_number(keys, other);
    let a = before_last_number(keys, one);
    let b = before_last_number(keys, other);
    assert(start + (a + decimal(one.last())) =~= (start + a) + decimal(one.last()));
    assert(other_start + (b + decimal(other.last())) =~= (other_start + b) + decimal(other.last()));
    assert((start + a).last() == ' ' && (other_start + b).last() == ' ');
    lemma_number_starts(start + a, one.last(), other_start + b, other.last());
    let tail = seq!['"'] + keys.last() + seq!['"', ':', ' '];
    if keys.len() == 1 {
        assert(a =~= tail && b =~= tail);
        lemma_same_start(start, other_start, tail);
        assert(one =~= seq![one.last()] && other =~= seq![other.last()]);
    } else {
        let earlier = keys.drop_last();
        let m = members_text(true, number_fields(earlier, one.drop_last()));
        let n = members_text(true, number_fields(earlier, other.drop_last()));
        let end = seq![',', ' '] + tail;
        assert(start + a =~= (start + m) + end);
        assert(other_start + b =~= (other_start + n) + end);
        lemma_same_start(start + m, other_start + n, end);
        lemma_numbers_end(start, one.drop_last(), other_start, other.drop_last(), earlier);
        assert(one =~= one.drop_last().push(one.last()));
        assert(other =~= other.drop_last().push(other.last()));
    }
}

/// Where equal texts end with ratelimits, the ratelimits are equal and so is what stands
/// before them.
pub proof fn lemma_ratelimit_ends(
    start: Seq<char>,
    one: Ratelimit,
    other_start: Seq<char>,
    other: Ratelimit,
)
    requires
        start + ratelimit_text(one) == other_start + ratelimit_text(other),
    ensures
        one == other,
        start == other_start,
{
    let keys = seq!["max_tokens"@, "tokens"@, "refill_amount"@, "refill_millis"@];
    let a = seq![
        one.max_tokens as nat,
        one.tokens as nat,
        one.refill_amount as nat,
        one.refill_millis as nat,
    ];
    let b = seq![
        other.max_tokens as nat,
        other.tokens as nat,
        other.refill_amount as nat,
        other.refill_millis as nat,
    ];
    assert(ratelimit_fields(one) =~= number_fields(keys, a));
    assert(ratelimit_fields(other) =~= number_fields(keys, b));
    let m = members_text(true, number_fields(keys, a));
    let n = members_text(true, number_fields(keys, b));
    assert(start + ratelimit_text(one) =~= (start + seq!['{'] + m) + seq!['}']);
    assert(other_start + ratelimit_text(other) =~= (other_start + seq!['{'] + n) + seq!['}']);
    lemma_same_start(start + seq!['{'] + m, other_start + seq!['{'] + n, seq!['}']);
    lemma_numbers_end(start + seq!['{'], a, other_start + seq!['{'], b, keys);
    lemma_same_start(start, other_start, seq!['{']);
    assert(a[0] == b[0] && a[1] == b[1] && a[2] == b[2] && a[3] == b[3]);
}

/// The members of a text before the last one, with all that comes before its value.
spec fn before_last_value(fields: Seq<(Seq<char>, Seq<char>)>) -> Seq<char> {
    (if fields.len() == 1 {
        seq![]
    } else {
        members_text(true, fields.drop_last()) + seq![',', ' ']
    }) + (seq!['"'] + fields.last().0 + seq!['"', ':', ' '])
}

proof fn lemma_last_value(fields: Seq<(Seq<char>, Seq<char>)>)
    requires
        fields.len() > 0,
    ensures
        members_text(true, fields) == before_last_value(fields) + fields.last().1,
        before_last_value(fields).len() > 0,
        before_last_value(fields).last() == ' ',
{
    assert(members_text(true, fields) =~= before_last_value(fields) + fields.last().1);
}

/// Equal texts with equal last members have equal members before these.
proof fn lemma_same_members_before(
    start: Seq<char>,
    fields: Seq<(Seq<char>, Seq<char>)>,
    other_start: Seq<char>,
    others: Seq<(Seq<char>, Seq<char>)>,
)
    requires
        fields.len() > 1,
        others.len() > 1,
        fields.last().0 == others.last().0,
        start + before_last_value(fields) == other_start + before_last_value(others),
    ensures
        start + members_text(true, fields.drop_last()) == other_start + members_text(
            true,
            others.drop_last(),
        ),
{
    let m = members_text(true, fields.drop_last());
    let n = members_text(true, others.drop_last());
    let end = seq![',', ' '] + (seq!['"'] + fields.last().0 + seq!['"', ':', ' ']);
    assert(start + before_last_value(fields) =~= (start + m) + end);
    assert(other_start + before_last_value(others) =~= (other_start + n) + end);
    lemma_same_start(start + m, other_start + n, end);
}

/// A greeting determines the limits: configurations whose greetings are one text have
/// the same limits.
pub proof fn greetings_determine_the_limits(
    rooms: Map<Seq<char>, RoomView>,
    names: Seq<Seq<char>>,
    config: Config,
    other_rooms: Map<Seq<char>, RoomView>,
    other_names: Seq<Seq<char>>,
    other: Config,
)
    requires
        greeting_text(rooms, names, config) == greeting_text(other_rooms, other_names, other),
    ensures
        config.connections_per_ip == other.connections_per_ip,
        config.msg_freq_ratelimit == other.msg_freq_ratelimit,
        config.msg_size_ratelimit == other.msg_size_ratelimit,
        config.max_message_size == other.max_message_size,
        strings_text(public_rooms(rooms, names)) == strings_text(
            public_rooms(other_rooms, other_names),
        ),
{
    let f = greeting_fields(rooms, names, config);
    let g = greeting_fields(other_rooms, other_names, other);
    lemma_last_value(f);
    lemma_last_value(g);
    let start = seq!['{'] + before_last_value(f) + seq!['{'];
    let other_start = seq!['{'] + before_last_value(g) + seq!['{'];
    let f4 = limit_fields(config);
    let g4 = limit_fields(other);
    let end = seq!['}', '}'];
    assert(greeting_text(rooms, names, config) =~= (start + members_text(true, f4)) + end);
    assert(greeting_text(other_rooms, other_names, other) =~= (other_start + members_text(true, g4))
        + end);
    lemma_same_start(
        start + members_text(true, f4),
        other_start + members_text(true, g4),
        end,
    );
    lemma_limits_end(start, config, other_start, other);
    assert(start =~= (seq!['{'] + before_last_value(f)) + seq!['{']);
    lemma_same_start(seq!['{'] + before_last_value(f), seq!['{'] + before_last_value(g), seq!['{']);
    lemma_same_members_before(seq!['{'], f, seq!['{'], g);
    let f2 = f.drop_last();
    let g2 = g.drop_last();
    lemma_last_value(f2);
    lemma_last_value(g2);
    assert(f2.drop_last() =~= g2.drop_last());
    assert(before_last_value(f2) == before_last_value(g2));
    assert(seq!['{'] + members_text(true, f2) =~= (seq!['{'] + before_last_value(f2))
        + f2.last().1);
    assert(seq!['{'] + members_text(true, g2) =~= (seq!['{'] + before_last_value(f2))
        + g2.last().1);
    lemma_same_end(seq!['{'] + before_last_value(f2), f2.last().1, g2.last().1);
}

proof fn lemma_number_last(
    start: Seq<char>,
    fields: Seq<(Seq<char>, Seq<char>)>,
    one: nat,
    other_start: Seq<char>,
    others: Seq<(Seq<char>, Seq<char>)>,
    other: nat,
)
    requires
        fields.len() > 0,
        others.len() > 0,
        fields.last().1 == decimal(one),
        others.last().1 == decimal(other),
        start + members_text(true, fields) == other_start + members_text(true, others),
    ensures
        one == other,
        start + before_last_value(fields) == other_start + before_last_value(others),
{
    lemma_last_value(fields);
    lemma_last_value(others);
    let a = before_last_value(fields);
    let b = before_last_value(others);
    assert(start + members_text(true, fields) =~= (start + a) + decimal(one));
    assert(other_start + members_text(true, others) =~= (other_start + b) + decimal(other));
    assert((start + a).last() == ' ');
    assert((other_start + b).last() == ' ');
    lemma_number_starts(start + a, one, other_start + b, other);
}

proof fn lemma_ratelimit_last(
    start: Seq<char>,
    fields: Seq<(Seq<char>, Seq<char>)>,
    one: Ratelimit,
    other_start: Seq<char>,
    others: Seq<(Seq<char>, Seq<char>)>,
    other: Ratelimit,
)
    requires
        fields.len() > 0,
        others.len() > 0,
        fields.last().1 == ratelimit_text(one),
        others.last().1 == ratelimit_text(other),
        start + members_text(true, fields) == other_start + members_text(true, others),
    ensures
        one == other,
        start + before_last_value(fields) == other_start + before_last_value(others),
{
    lemma_last_value(fields);
    lemma_last_value(others);
    let a = before_last_value(fields);
    let b = before_last_value(others);
    assert(start + members_text(true, fields) =~= (start + a) + ratelimit_text(one));
    assert(other_start + members_text(true, others) =~= (other_start + b) + ratelimit_text(other));
    lemma_ratelimit_ends(start + a, one, other_start + b, other);
}

proof fn lemma_limits_end(start: Seq<char>, config: Config, other_start: Seq<char>, other: Config)
    requires
        start.len() > 0,
        other_start.len() > 0,
        start + members_text(true, limit_fields(config)) == other_start + members_text(
            true,
            limit_fields(other),
        ),
    ensures
        config.connections_per_ip == other.connections_per_ip,
        config.msg_freq_ratelimit == other.msg_freq_ratelimit,
        config.msg_size_ratelimit == other.msg_size_ratelimit,
        config.max_message_size == other.max_message_size,
        start == other_start,
{
    let f4 = limit_fields(config);
    let g4 = limit_fields(other);
    let f3 = f4.drop_last();
    let g3 = g4.drop_last();
    let f2 = f3.drop_last();
    let g2 = g3.drop_last();
    let f1 = f2.drop_last();
    let g1 = g2.drop_last();
    lemma_number_last(
        start,
        f4,
        config.max_message_size as nat,
        other_start,
        g4,
        other.max_message_size as nat,
    );
    lemma_same_members_before(start, f4, other_start, g4);
    lemma_ratelimit_last(
        start,
        f3,
        config.msg_size_ratelimit,
        other_start,
        g3,
        other.msg_size_ratelimit,
    );
    lemma_same_members_before(start, f3, other_start, g3);
    lemma_ratelimit_last(
        start,
        f2,
        config.msg_freq_ratelimit,
        other_start,
        g2,
        other.msg_freq_ratelimit,
    );
    lemma_same_members_before(start, f2, other_start, g2);
    lemma_number_last(
        start,
        f1,
        config.connections_per_ip as nat,
        other_start,
        g1,
        other.connections_per_ip as nat,
    );
    assert(before_last_value(f1) =~= before_last_value(g1));
    lemma_same_start(start, other_start, before_last_value(f1));
}

} // verus!
