//! What a JSON text is, and that the texts of this server are such.
use crate::constants;
use crate::text::{
    decimal, escaped, escaped_char, items_text, json_string, member_text, members_text, object_text,
    strings_text,
};
use vstd::prelude::*;

verus! {

pub open spec fn is_blank(c: char) -> bool {
    c == ' ' || c == '\t' || c == '\n' || c == '\r'
}

/// Only blanks.
pub open spec fn blanks(s: Seq<char>) -> bool {
    forall|i: int| 0 <= i < s.len() ==> is_blank(#[trigger] s[i])
}

pub open spec fn is_digit(c: char) -> bool {
    '0' <= c <= '9'
}

/// Only digits, and at least one.
pub open spec fn digits(s: Seq<char>) -> bool {
    &&& s.len() > 0
    &&& forall|i: int| 0 <= i < s.len() ==> is_digit(#[trigger] s[i])
}

/// Digits without a leading zero, or zero itself.
pub open spec fn whole_number(s: Seq<char>) -> bool {
    &&& digits(s)
    &&& s[0] == '0' ==> s.len() == 1
}

/// Nothing, or a point and digits.
pub open spec fn fraction(s: Seq<char>) -> bool {
    s.len() > 0 ==> s[0] == '.' && digits(s.skip(1))
}

/// Nothing, or an `e`, a sign or none, and digits.
pub open spec fn exponent(s: Seq<char>) -> bool {
    s.len() > 0 ==> {
        &&& s[0] == 'e' || s[0] == 'E'
        &&& digits(s.skip(1)) || s.len() > 1 && (s[1] == '+' || s[1] == '-') && digits(s.skip(2))
    }
}

/// A JSON number: the whole part ends at `a`, the fraction at `b`.
pub open spec fn number_cut(s: Seq<char>, a: int, b: int) -> bool {
    &&& 0 <= a <= b <= s.len()
    &&& whole_number(s.subrange(0, a)) || a > 0 && s[0] == '-' && whole_number(s.subrange(1, a))
    &&& fraction(s.subrange(a, b))
    &&& exponent(s.subrange(b, s.len() as int))
}

/// A JSON number.
pub open spec fn is_number(s: Seq<char>) -> bool {
    exists|a: int, b: int| #[trigger] number_cut(s, a, b)
}

/// `true`, `false` or `null`.
pub open spec fn is_literal(s: Seq<char>) -> bool {
    s == "true"@ || s == "false"@ || s == "null"@
}

pub open spec fn is_hex_digit(c: char) -> bool {
    '0' <= c <= '9' || 'a' <= c <= 'f' || 'A' <= c <= 'F'
}

/// What may follow a backslash, apart from `u`.
pub open spec fn is_short_escape(c: char) -> bool {
    c == '"' || c == '\\' || c == '/' || c == 'b' || c == 'f' || c == 'n' || c == 'r' || c == 't'
}

/// What may stand between the quotes of a JSON string.
pub open spec fn string_chars(s: Seq<char>) -> bool
    decreases s.len(),
{
    if s.len() == 0 {
        true
    } else if s[0] == '\\' {
        if s.len() >= 2 && is_short_escape(s[1]) {
            string_chars(s.skip(2))
        } else {
            &&& s.len() >= 6
            &&& s[1] == 'u'
            &&& is_hex_digit(s[2]) && is_hex_digit(s[3]) && is_hex_digit(s[4]) && is_hex_digit(s[5])
            &&& string_chars(s.skip(6))
        }
    } else {
        &&& s[0] != '"'
        &&& s[0] as int > 31
        &&& string_chars(s.skip(1))
    }
}

/// A JSON string, with its quotes.
pub open spec fn is_string(s: Seq<char>) -> bool {
    &&& s.len() >= 2
    &&& s[0] == '"'
    &&& s.last() == '"'
    &&& string_chars(s.subrange(1, s.len() - 1))
}

/// The parts with commas between them.
pub open spec fn with_commas(parts: Seq<Seq<char>>) -> Seq<char>
    decreases parts.len(),
{
    if parts.len() == 0 {
        seq![]
    } else if parts.len() == 1 {
        parts[0]
    } else {
        with_commas(parts.drop_last()) + seq![','] + parts.last()
    }
}

/// A JSON value, with lists and objects nested no deeper than `depth`.
pub open spec fn is_value(s: Seq<char>, depth: nat) -> bool
    decreases depth, 0nat,
{
    ||| is_literal(s)
    ||| is_number(s)
    ||| is_string(s)
    ||| depth > 0 && exists|inside: Seq<char>|
        blanks(inside) && (s == seq!['['] + #[trigger] (inside + seq![']']) || s == seq!['{'] + (inside
            + seq!['}']))
    ||| depth > 0 && exists|parts: Seq<Seq<char>>|
        {
            &&& parts.len() > 0
            &&& s == seq!['['] + #[trigger] with_commas(parts) + seq![']']
            &&& forall|i: int|
                0 <= i < parts.len() ==> is_element(#[trigger] parts[i], (depth - 1) as nat)
        }
    ||| depth > 0 && exists|parts: Seq<Seq<char>>|
        {
            &&& parts.len() > 0
            &&& s == seq!['{'] + #[trigger] with_commas(parts) + seq!['}']
            &&& forall|i: int|
                0 <= i < parts.len() ==> is_member(#[trigger] parts[i], (depth - 1) as nat)
        }
}

/// A JSON value with blanks around it.
pub open spec fn is_element(s: Seq<char>, depth: nat) -> bool
    decreases depth, 1nat,
{
    exists|from: int, to: int|
        {
            &&& 0 <= from <= to <= s.len()
            &&& blanks(s.subrange(0, from))
            &&& is_value(#[trigger] s.subrange(from, to), depth)
            &&& blanks(s.subrange(to, s.len() as int))
        }
}

/// A key and a value of an object.
pub open spec fn is_member(s: Seq<char>, depth: nat) -> bool
    decreases depth, 2nat,
{
    exists|from: int, to: int, colon: int|
        {
            &&& 0 <= from <= to <= colon < s.len()
            &&& blanks(s.subrange(0, from))
            &&& is_string(#[trigger] s.subrange(from, to))
            &&& blanks(s.subrange(to, colon))
            &&& s[colon] == ':'
            &&& is_element(#[trigger] s.skip(colon + 1), depth)
        }
}

/// A JSON text.
pub open spec fn is_json(s: Seq<char>) -> bool {
    exists|depth: nat| is_element(s, depth)
}

/// A value that is not nested deeper than `less` is not nested deeper than `more`.
proof fn lemma_value_deeper(s: Seq<char>, less: nat, more: nat)
    requires
        is_value(s, less),
        less <= more,
    ensures
        is_value(s, more),
    decreases less, 0nat,
{
    if !is_literal(s) && !is_number(s) && !is_string(s) && less > 0 {
        let inner_less = (less - 1) as nat;
        let inner_more = (more - 1) as nat;
        if exists|parts: Seq<Seq<char>>|
            {
                &&& parts.len() > 0
                &&& s == seq!['['] + #[trigger] with_commas(parts) + seq![']']
                &&& forall|i: int|
                    0 <= i < parts.len() ==> is_element(#[trigger] parts[i], inner_less)
            } {
            let parts = choose|parts: Seq<Seq<char>>|
                {
                    &&& parts.len() > 0
                    &&& s == seq!['['] + #[trigger] with_commas(parts) + seq![']']
                    &&& forall|i: int|
                        0 <= i < parts.len() ==> is_element(#[trigger] parts[i], inner_less)
                };
            assert forall|i: int| 0 <= i < parts.len() implies is_element(
                #[trigger] parts[i],
                inner_more,
            ) by {
                lemma_element_deeper(parts[i], inner_less, inner_more);
            }
        } else if exists|parts: Seq<Seq<char>>|
            {
                &&& parts.len() > 0
                &&& s == seq!['{'] + #[trigger] with_commas(parts) + seq!['}']
                &&& forall|i: int|
                    0 <= i < parts.len() ==> is_member(#[trigger] parts[i], inner_less)
            } {
            let parts = choose|parts: Seq<Seq<char>>|
                {
                    &&& parts.len() > 0
                    &&& s == seq!['{'] + #[trigger] with_commas(parts) + seq!['}']
                    &&& forall|i: int|
                        0 <= i < parts.len() ==> is_member(#[trigger] parts[i], inner_less)
                };
            assert forall|i: int| 0 <= i < parts.len() implies is_member(
                #[trigger] parts[i],
                inner_more,
            ) by {
                lemma_member_deeper(parts[i], inner_less, inner_more);
            }
        }
    }
}

proof fn lemma_element_deeper(s: Seq<char>, less: nat, more: nat)
    requires
        is_element(s, less),
        less <= more,
    ensures
        is_element(s, more),
    decreases less, 1nat,
{
    let (from, to) = choose|from: int, to: int|
        {
            &&& 0 <= from <= to <= s.len()
            &&& blanks(s.subrange(0, from))
            &&& is_value(#[trigger] s.subrange(from, to), less)
            &&& blanks(s.subrange(to, s.len() as int))
        };
    lemma_value_deeper(s.subrange(from, to), less, more);
}

proof fn lemma_member_deeper(s: Seq<char>, less: nat, more: nat)
    requires
        is_member(s, less),
        less <= more,
    ensures
        is_member(s, more),
    decreases less, 2nat,
{
    let (from, to, colon) = choose|from: int, to: int, colon: int|
        {
            &&& 0 <= from <= to <= colon < s.len()
            &&& blanks(s.subrange(0, from))
            &&& is_string(#[trigger] s.subrange(from, to))
            &&& blanks(s.subrange(to, colon))
            &&& s[colon] == ':'
            &&& is_element(#[trigger] s.skip(colon + 1), less)
        };
    lemma_element_deeper(s.skip(colon + 1), less, more);
}

/// One depth is enough for all the listed texts.
proof fn lemma_common_depth(texts: Seq<Seq<char>>) -> (depth: nat)
    requires
        forall|i: int| 0 <= i < texts.len() ==> is_json(#[trigger] texts[i]),
    ensures
        forall|i: int| 0 <= i < texts.len() ==> is_element(#[trigger] texts[i], depth),
    decreases texts.len(),
{
    if texts.len() == 0 {
        0
    } else {
        let before = texts.drop_last();
        assert forall|i: int| 0 <= i < before.len() implies is_json(#[trigger] before[i]) by {
            assert(before[i] == texts[i]);
        }
        let others = lemma_common_depth(before);
        assert(is_json(texts[texts.len() - 1]));
        let last = choose|depth: nat| is_element(texts.last(), depth);
        let depth = if others < last {
            last
        } else {
            others
        };
        assert forall|i: int| 0 <= i < texts.len() implies is_element(
            #[trigger] texts[i],
            depth,
        ) by {
            if i < before.len() {
                assert(before[i] == texts[i]);
                lemma_element_deeper(texts[i], others, depth);
            } else {
                lemma_element_deeper(texts[i], last, depth);
            }
        }
        depth
    }
}

/// A value needs no blanks around it.
proof fn lemma_bare_element(s: Seq<char>, depth: nat)
    requires
        is_value(s, depth),
    ensures
        is_element(s, depth),
{
    assert(s.subrange(0, s.len() as int) =~= s);
    assert(blanks(s.subrange(0, 0)));
    assert(blanks(s.subrange(s.len() as int, s.len() as int)));
}

/// Blanks may stand before an element.
proof fn lemma_element_after_blank(s: Seq<char>, depth: nat)
    requires
        is_element(s, depth),
    ensures
        is_element(seq![' '] + s, depth),
{
    let (from, to) = choose|from: int, to: int|
        {
            &&& 0 <= from <= to <= s.len()
            &&& blanks(s.subrange(0, from))
            &&& is_value(#[trigger] s.subrange(from, to), depth)
            &&& blanks(s.subrange(to, s.len() as int))
        };
    let t = seq![' '] + s;
    assert(t.subrange(from + 1, to + 1) =~= s.subrange(from, to));
    assert(t.subrange(to + 1, t.len() as int) =~= s.subrange(to, s.len() as int));
    assert forall|i: int| 0 <= i < t.subrange(0, from + 1).len() implies is_blank(
        #[trigger] t.subrange(0, from + 1)[i],
    ) by {
        if i > 0 {
            assert(t.subrange(0, from + 1)[i] == s.subrange(0, from)[i - 1]);
        }
    }
}

/// One after the other, two pieces of a string are a piece of a string.
proof fn lemma_string_chars_together(a: Seq<char>, b: Seq<char>)
    requires
        string_chars(a),
        string_chars(b),
    ensures
        string_chars(a + b),
    decreases a.len(),
{
    if a.len() == 0 {
        assert(a + b =~= b);
    } else {
        let step: int = if a[0] != '\\' {
            1
        } else if a.len() >= 2 && is_short_escape(a[1]) {
            2
        } else {
            6
        };
        lemma_string_chars_together(a.skip(step), b);
        assert((a + b).skip(step) =~= a.skip(step) + b);
    }
}

proof fn lemma_escaped_char(c: char)
    ensures
        string_chars(escaped_char(c)),
{
    reveal_with_fuel(string_chars, 3);
    let e = escaped_char(c);
    if e.len() == 6 {
        assert(0 <= c as int / 16 <= 1 && 0 <= c as int % 16 < 16);
        assert(is_hex_digit(e[4]) && is_hex_digit(e[5]));
        assert(e.skip(6).len() == 0);
    } else if e.len() == 2 {
        assert(e.skip(2).len() == 0);
    } else {
        assert(e.skip(1).len() == 0);
    }
}

proof fn lemma_escaped(s: Seq<char>)
    ensures
        string_chars(escaped(s)),
    decreases s.len(),
{
    if s.len() > 0 {
        lemma_escaped(s.drop_last());
        lemma_escaped_char(s.last());
        lemma_string_chars_together(escaped(s.drop_last()), escaped_char(s.last()));
    }
}

/// A quoted text is a JSON string.
pub proof fn quoted_texts_are_strings(s: Seq<char>)
    ensures
        is_string(json_string(s)),
        is_json(json_string(s)),
{
    let q = json_string(s);
    lemma_escaped(s);
    assert(q.subrange(1, q.len() - 1) =~= escaped(s));
    lemma_bare_element(q, 0);
}

proof fn lemma_decimal(n: nat)
    ensures
        whole_number(decimal(n)),
        n > 0 ==> decimal(n)[0] != '0',
    decreases n,
{
    if n >= 10 {
        lemma_decimal(n / 10);
    }
}

/// Decimal digits are a JSON number.
pub proof fn decimals_are_numbers(n: nat)
    ensures
        is_number(decimal(n)),
        is_json(decimal(n)),
{
    let d = decimal(n);
    lemma_decimal(n);
    assert(d.subrange(0, d.len() as int) =~= d);
    assert(number_cut(d, d.len() as int, d.len() as int));
    lemma_bare_element(d, 0);
}

/// The literals are JSON texts.
pub proof fn literals_are_json()
    ensures
        is_json("true"@),
        is_json("false"@),
        is_json("null"@),
{
    lemma_bare_element("true"@, 0);
    lemma_bare_element("false"@, 0);
    lemma_bare_element("null"@, 0);
}

/// The members of an object as its parts between commas.
pub open spec fn member_parts(spaced: bool, fields: Seq<(Seq<char>, Seq<char>)>) -> Seq<Seq<char>> {
    Seq::new(
        fields.len(),
        |i: int|
            (if spaced && i > 0 {
                seq![' ']
            } else {
                seq![]
            }) + member_text(spaced, fields[i].0, fields[i].1),
    )
}

pub proof fn lemma_member_parts(spaced: bool, fields: Seq<(Seq<char>, Seq<char>)>)
    ensures
        members_text(spaced, fields) == with_commas(member_parts(spaced, fields)),
    decreases fields.len(),
{
    let parts = member_parts(spaced, fields);
    if fields.len() == 1 {
        assert(parts[0] =~= member_text(spaced, fields[0].0, fields[0].1));
    } else if fields.len() > 1 {
        lemma_member_parts(spaced, fields.drop_last());
        assert(parts.drop_last() =~= member_parts(spaced, fields.drop_last()));
        let last = member_text(spaced, fields.last().0, fields.last().1);
        if spaced {
            assert(seq![','] + (seq![' '] + last) =~= seq![',', ' '] + last);
        } else {
            assert(parts.last() =~= last);
        }
        assert(members_text(spaced, fields) =~= with_commas(parts));
    }
}

proof fn lemma_member_text(spaced: bool, indent: bool, key: Seq<char>, value: Seq<char>, depth: nat)
    requires
        string_chars(key),
        is_element(value, depth),
    ensures
        is_member(
            (if indent {
                seq![' ']
            } else {
                seq![]
            }) + member_text(spaced, key, value),
            depth,
        ),
{
    let margin: Seq<char> = if indent {
        seq![' ']
    } else {
        seq![]
    };
    let s = margin + member_text(spaced, key, value);
    let from = margin.len() as int;
    let to = from + key.len() + 2;
    let quoted = s.subrange(from, to);
    assert(quoted.subrange(1, quoted.len() - 1) =~= key);
    assert(quoted[0] == '"' && quoted.last() == '"');
    assert(blanks(s.subrange(0, from)));
    assert(blanks(s.subrange(to, to)));
    assert(s[to] == ':');
    if spaced {
        lemma_element_after_blank(value, depth);
        assert(s.skip(to + 1) =~= seq![' '] + value);
    } else {
        assert(s.skip(to + 1) =~= value);
    }
}

/// An object is a JSON text if its values are, and if its keys can stand between
/// quotes as they are.
pub proof fn objects_are_json(spaced: bool, fields: Seq<(Seq<char>, Seq<char>)>)
    requires
        fields.len() > 0,
        forall|i: int|
            0 <= i < fields.len() ==> string_chars((#[trigger] fields[i]).0) && is_json(
                fields[i].1,
            ),
    ensures
        is_json(object_text(spaced, fields)),
{
    let values = Seq::new(fields.len(), |i: int| fields[i].1);
    let depth = lemma_common_depth(values);
    let parts = member_parts(spaced, fields);
    assert forall|i: int| 0 <= i < parts.len() implies is_member(#[trigger] parts[i], depth) by {
        assert(is_element(values[i], depth));
        lemma_member_text(spaced, spaced && i > 0, fields[i].0, fields[i].1, depth);
    }
    lemma_member_parts(spaced, fields);
    assert(depth == ((depth + 1) - 1) as nat);
    assert(is_value(object_text(spaced, fields), depth + 1));
    lemma_bare_element(object_text(spaced, fields), depth + 1);
}

/// The items of a list as its parts between commas.
pub open spec fn item_parts(items: Seq<Seq<char>>) -> Seq<Seq<char>> {
    Seq::new(
        items.len(),
        |i: int|
            if i > 0 {
                seq![' '] + items[i]
            } else {
                items[i]
            },
    )
}

pub proof fn lemma_item_parts(items: Seq<Seq<char>>)
    ensures
        items_text(items) == with_commas(item_parts(items)),
    decreases items.len(),
{
    if items.len() > 1 {
        lemma_item_parts(items.drop_last());
        assert(item_parts(items).drop_last() =~= item_parts(items.drop_last()));
        assert(seq![','] + (seq![' '] + items.last()) =~= seq![',', ' '] + items.last());
        assert(items_text(items) =~= with_commas(item_parts(items)));
    }
}

/// A list of strings is a JSON text.
pub proof fn lists_are_json(strings: Seq<Seq<char>>)
    ensures
        is_json(strings_text(strings)),
{
    let items = strings.map_values(|s: Seq<char>| json_string(s));
    let parts = item_parts(items);
    let text = strings_text(strings);
    lemma_item_parts(items);
    if items.len() == 0 {
        let inside = Seq::<char>::empty();
        assert(blanks(inside));
        assert(text =~= seq!['['] + (inside + seq![']']));
    } else {
        assert forall|i: int| 0 <= i < parts.len() implies is_element(#[trigger] parts[i], 0) by {
            quoted_texts_are_strings(strings[i]);
            lemma_bare_element(items[i], 0);
            lemma_element_after_blank(items[i], 0);
        }
    }
    assert(is_value(text, 1));
    lemma_bare_element(text, 1);
}

/// Up to `end`, the characters from `at` on need no escape in a string.
pub open spec fn plain(s: Seq<char>, at: int, end: int) -> bool
    decreases end - at,
{
    at < end ==> s[at] != '"' && s[at] != '\\' && s[at] as int > 31 && plain(s, at + 1, end)
}

proof fn lemma_plain(s: Seq<char>, at: int, end: int)
    requires
        0 <= at <= end <= s.len(),
        plain(s, at, end),
    ensures
        string_chars(s.subrange(at, end)),
    decreases end - at,
{
    if at < end {
        lemma_plain(s, at + 1, end);
        assert(s.subrange(at, end).skip(1) =~= s.subrange(at + 1, end));
    }
}

proof fn lemma_plain_key(s: Seq<char>)
    requires
        plain(s, 0, s.len() as int),
    ensures
        string_chars(s),
{
    lemma_plain(s, 0, s.len() as int);
    assert(s.subrange(0, s.len() as int) =~= s);
}

proof fn lemma_plain_string(s: Seq<char>)
    requires
        s.len() >= 2,
        s[0] == '"',
        s.last() == '"',
        plain(s, 1, s.len() - 1),
    ensures
        is_json(s),
{
    lemma_plain(s, 1, s.len() - 1);
    lemma_bare_element(s, 0);
}

proof fn lemma_plain_together(s: Seq<char>, from: int, middle: int, to: int)
    requires
        from <= middle <= to,
        plain(s, from, middle),
        plain(s, middle, to),
    ensures
        plain(s, from, to),
    decreases middle - from,
{
    if from < middle {
        lemma_plain_together(s, from + 1, middle, to);
    }
}

/// Such characters are written as they are.
pub proof fn plain_texts_are_not_escaped(s: Seq<char>, to: int)
    requires
        0 <= to <= s.len(),
        plain(s, 0, s.len() as int),
    ensures
        escaped(s.take(to)) == s.take(to),
    decreases to,
{
    if to > 0 {
        plain_texts_are_not_escaped(s, to - 1);
        lemma_plain_at(s, 0, s.len() as int, to - 1);
        assert(s.take(to).drop_last() =~= s.take(to - 1));
        assert(escaped(s.take(to)) =~= s.take(to));
    } else {
        assert(escaped(s.take(0)) =~= s.take(0));
    }
}

proof fn lemma_plain_at(s: Seq<char>, from: int, to: int, at: int)
    requires
        plain(s, from, to),
        from <= at < to,
    ensures
        s[at] != '"' && s[at] != '\\' && s[at] as int > 31,
    decreases at - from,
{
    if from < at {
        lemma_plain_at(s, from + 1, to, at);
    }
}

/// The keys that the server writes can stand between quotes as they are.
pub proof fn keys_are_plain()
    ensures
        string_chars("type"@),
        string_chars("room"@),
        string_chars("user"@),
        string_chars("id"@),
        string_chars("body"@),
        string_chars("read_only"@),
        string_chars("extra_info"@),
        string_chars("msg_freq_ratelimit"@),
        string_chars("msg_size_ratelimit"@),
        string_chars("users"@),
        string_chars("max_tokens"@),
        string_chars("tokens"@),
        string_chars("refill_amount"@),
        string_chars("refill_millis"@),
        string_chars("public_rooms"@),
        string_chars("config"@),
        string_chars("connections_per_ip"@),
        string_chars("max_message_size"@),
{
    reveal_with_fuel(plain, 21);
    reveal_strlit("type");
    lemma_plain_key("type"@);
    reveal_strlit("room");
    lemma_plain_key("room"@);
    reveal_strlit("user");
    lemma_plain_key("user"@);
    reveal_strlit("id");
    lemma_plain_key("id"@);
    reveal_strlit("body");
    lemma_plain_key("body"@);
    reveal_strlit("read_only");
    lemma_plain_key("read_only"@);
    reveal_strlit("extra_info");
    lemma_plain_key("extra_info"@);
    reveal_strlit("msg_freq_ratelimit");
    lemma_plain_key("msg_freq_ratelimit"@);
    reveal_strlit("msg_size_ratelimit");
    lemma_plain_key("msg_size_ratelimit"@);
    reveal_strlit("users");
    lemma_plain_key("users"@);
    reveal_strlit("max_tokens");
    lemma_plain_key("max_tokens"@);
    reveal_strlit("tokens");
    lemma_plain_key("tokens"@);
    reveal_strlit("refill_amount");
    lemma_plain_key("refill_amount"@);
    reveal_strlit("refill_millis");
    lemma_plain_key("refill_millis"@);
    reveal_strlit("public_rooms");
    lemma_plain_key("public_rooms"@);
    reveal_strlit("config");
    lemma_plain_key("config"@);
    reveal_strlit("connections_per_ip");
    lemma_plain_key("connections_per_ip"@);
    reveal_strlit("max_message_size");
    lemma_plain_key("max_message_size"@);
}

proof fn lemma_invalid_room_message()
    ensures
        is_json(constants::INVALID_ROOM_MSG@),
{
    reveal_strlit(
        "\"You attempted to interact with an invalid room, either because you are subscribed and trying to subscribe again or because you are not subscribed and unsubscribing or sending a message\"",
    );
    let s = constants::INVALID_ROOM_MSG@;
    reveal_with_fuel(plain, 21);
    assert(plain(s, 1, 20));
    assert(plain(s, 20, 40));
    lemma_plain_together(s, 1, 20, 40);
    assert(plain(s, 40, 60));
    lemma_plain_together(s, 1, 40, 60);
    assert(plain(s, 60, 80));
    lemma_plain_together(s, 1, 60, 80);
    assert(plain(s, 80, 100));
    lemma_plain_together(s, 1, 80, 100);
    assert(plain(s, 100, 120));
    lemma_plain_together(s, 1, 100, 120);
    assert(plain(s, 120, 140));
    lemma_plain_together(s, 1, 120, 140);
    assert(plain(s, 140, 160));
    lemma_plain_together(s, 1, 140, 160);
    assert(plain(s, 160, 180));
    lemma_plain_together(s, 1, 160, 180);
    assert(plain(s, 180, s.len() - 1));
    lemma_plain_together(s, 1, 180, s.len() - 1);
    lemma_plain_string(s);
}

proof fn lemma_short_name_message()
    ensures
        is_json(constants::ROOM_NAME_TOO_SHORT@),
{
    reveal_strlit("\"The room name provided is shorter than 32 characters\"");
    let s = constants::ROOM_NAME_TOO_SHORT@;
    reveal_with_fuel(plain, 21);
    assert(plain(s, 1, 20));
    assert(plain(s, 20, 40));
    lemma_plain_together(s, 1, 20, 40);
    assert(plain(s, 40, s.len() - 1));
    lemma_plain_together(s, 1, 40, s.len() - 1);
    lemma_plain_string(s);
}

proof fn lemma_read_only_message()
    ensures
        is_json(constants::ROOM_READ_ONLY@),
{
    reveal_strlit("\"The room you attempted to send a message in is in read-only mode\"");
    let s = constants::ROOM_READ_ONLY@;
    reveal_with_fuel(plain, 21);
    assert(plain(s, 1, 20));
    assert(plain(s, 20, 40));
    lemma_plain_together(s, 1, 20, 40);
    assert(plain(s, 40, 60));
    lemma_plain_together(s, 1, 40, 60);
    assert(plain(s, 60, s.len() - 1));
    lemma_plain_together(s, 1, 60, s.len() - 1);
    lemma_plain_string(s);
}

proof fn lemma_invalid_message()
    ensures
        is_json(constants::INVALID_MSG@),
{
    reveal_strlit("\"Your JSON payload is missing required fields or has a disallowed type\"");
    let s = constants::INVALID_MSG@;
    reveal_with_fuel(plain, 21);
    assert(plain(s, 1, 20));
    assert(plain(s, 20, 40));
    lemma_plain_together(s, 1, 20, 40);
    assert(plain(s, 40, 60));
    lemma_plain_together(s, 1, 40, 60);
    assert(plain(s, 60, s.len() - 1));
    lemma_plain_together(s, 1, 60, s.len() - 1);
    lemma_plain_string(s);
}

proof fn lemma_join_message()
    ensures
        is_json(constants::ROOM_JOIN_MSG@),
{
    reveal_strlit("\"You joined the room\"");
    let s = constants::ROOM_JOIN_MSG@;
    reveal_with_fuel(plain, 21);
    assert(plain(s, 1, s.len() - 1));
    lemma_plain_string(s);
}

proof fn lemma_leave_message()
    ensures
        is_json(constants::ROOM_LEAVE_MSG@),
{
    reveal_strlit("\"You left the room\"");
    let s = constants::ROOM_LEAVE_MSG@;
    reveal_with_fuel(plain, 21);
    assert(plain(s, 1, s.len() - 1));
    lemma_plain_string(s);
}

/// The bodies of the server's answers are JSON strings.
pub proof fn answers_are_strings()
    ensures
        is_json(constants::INVALID_ROOM_MSG@),
        is_json(constants::ROOM_NAME_TOO_SHORT@),
        is_json(constants::ROOM_READ_ONLY@),
        is_json(constants::INVALID_MSG@),
        is_json(constants::ROOM_JOIN_MSG@),
        is_json(constants::ROOM_LEAVE_MSG@),
{
    lemma_invalid_room_message();
    lemma_short_name_message();
    lemma_read_only_message();
    lemma_invalid_message();
    lemma_join_message();
    lemma_leave_message();
}

} // verus!
