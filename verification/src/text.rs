//! The text of what the server sends: JSON objects, lists, strings and numbers.
use vstd::prelude::*;

verus! {

/// `String::push`: the character is put at the end.
pub assume_specification[ String::push ](s: &mut String, c: char)
    ensures
        final(s)@ == old(s)@.push(c),
;

/// The decimal digit that stands for `d`.
pub open spec fn digit(d: nat) -> char {
    (48 + d) as char
}

/// The decimal digits of a number, without leading zeros.
pub open spec fn decimal(n: nat) -> Seq<char>
    decreases n,
{
    if n < 10 {
        seq![digit(n)]
    } else {
        decimal(n / 10).push(digit(n % 10))
    }
}

/// The number in decimal digits.
pub fn decimal_text(n: u64) -> (text: String)
    ensures
        text@ == decimal(n as nat),
    decreases n,
{
    if n < 10 {
        let mut text = String::new();
        text.push((48u8 + n as u8) as char);
        assert(text@ =~= decimal(n as nat));
        text
    } else {
        let mut text = decimal_text(n / 10);
        text.push((48u8 + (n % 10) as u8) as char);
        text
    }
}

/// `true` or `false`.
pub open spec fn bool_text(b: bool) -> Seq<char> {
    if b {
        "true"@
    } else {
        "false"@
    }
}

/// The lower-case hexadecimal digit that stands for `d`.
pub open spec fn hex_digit(d: int) -> char {
    if d < 10 {
        (48 + d) as char
    } else {
        (87 + d) as char
    }
}

/// How one character is written inside a JSON string.
pub open spec fn escaped_char(c: char) -> Seq<char> {
    if c == '"' {
        seq!['\\', '"']
    } else if c == '\\' {
        seq!['\\', '\\']
    } else if c == '\u{8}' {
        seq!['\\', 'b']
    } else if c == '\t' {
        seq!['\\', 't']
    } else if c == '\n' {
        seq!['\\', 'n']
    } else if c == '\u{c}' {
        seq!['\\', 'f']
    } else if c == '\r' {
        seq!['\\', 'r']
    } else if c as int <= 31 {
        seq!['\\', 'u', '0', '0', hex_digit(c as int / 16), hex_digit(c as int % 16)]
    } else {
        seq![c]
    }
}

/// How a text is written between the quotes of a JSON string.
pub open spec fn escaped(s: Seq<char>) -> Seq<char>
    decreases s.len(),
{
    if s.len() == 0 {
        seq![]
    } else {
        escaped(s.drop_last()) + escaped_char(s.last())
    }
}

/// The JSON string that says `s`.
pub open spec fn json_string(s: Seq<char>) -> Seq<char> {
    seq!['"'] + escaped(s) + seq!['"']
}

/// Calls `serde_json::to_string` on a string, which cannot fail there: the text
/// is put between quotes, with the quote, the backslash and the characters below
/// the space escaped.
#[verifier::external_body]
pub(crate) fn quote(s: &str) -> (quoted: String)
    ensures
        quoted@ == json_string(s@),
{
    serde_json::to_string(s).expect("a string can be written as JSON")
}

/// One member of an object: the quoted key, the colon and the value.
pub open spec fn member_text(spaced: bool, key: Seq<char>, value: Seq<char>) -> Seq<char> {
    seq!['"'] + key + (if spaced {
        seq!['"', ':', ' ']
    } else {
        seq!['"', ':']
    }) + value
}

/// The members of an object, with commas between them.
pub open spec fn members_text(spaced: bool, fields: Seq<(Seq<char>, Seq<char>)>) -> Seq<char>
    decreases fields.len(),
{
    if fields.len() == 0 {
        seq![]
    } else if fields.len() == 1 {
        member_text(spaced, fields[0].0, fields[0].1)
    } else {
        members_text(spaced, fields.drop_last()) + (if spaced {
            seq![',', ' ']
        } else {
            seq![',']
        }) + member_text(spaced, fields.last().0, fields.last().1)
    }
}

/// A JSON object, given its keys and the texts of its values. A spaced one has a
/// blank after each colon and comma.
pub open spec fn object_text(spaced: bool, fields: Seq<(Seq<char>, Seq<char>)>) -> Seq<char> {
    seq!['{'] + members_text(spaced, fields) + seq!['}']
}

/// The items of a list, with a comma and a blank between them.
pub open spec fn items_text(items: Seq<Seq<char>>) -> Seq<char>
    decreases items.len(),
{
    if items.len() == 0 {
        seq![]
    } else if items.len() == 1 {
        items[0]
    } else {
        items_text(items.drop_last()) + seq![',', ' '] + items.last()
    }
}

/// A JSON list of strings.
pub open spec fn strings_text(strings: Seq<Seq<char>>) -> Seq<char> {
    seq!['['] + items_text(strings.map_values(|s: Seq<char>| json_string(s))) + seq![']']
}

/// An object that is being written.
pub(crate) struct ObjectText {
    text: String,
    spaced: bool,
    empty: bool,
    fields: Ghost<Seq<(Seq<char>, Seq<char>)>>,
}

impl ObjectText {
    pub(crate) closed spec fn wf(self) -> bool {
        &&& self.text@ == seq!['{'] + members_text(self.spaced, self.fields@)
        &&& self.empty == (self.fields@.len() == 0)
    }

    pub(crate) closed spec fn spaced(self) -> bool {
        self.spaced
    }

    pub(crate) closed spec fn fields(self) -> Seq<(Seq<char>, Seq<char>)> {
        self.fields@
    }

    pub(crate) fn new(spaced: bool) -> (object: Self)
        ensures
            object.wf(),
            object.spaced() == spaced,
            object.fields() == Seq::<(Seq<char>, Seq<char>)>::empty(),
    {
        let mut text = String::new();
        text.push('{');
        let object = ObjectText { text, spaced, empty: true, fields: Ghost(Seq::empty()) };
        assert(object.text@ =~= seq!['{'] + members_text(spaced, Seq::empty()));
        object
    }

    /// Adds a member. The value is the text of a JSON value.
    pub(crate) fn field(&mut self, key: &str, value: &str)
        requires
            old(self).wf(),
        ensures
            final(self).wf(),
            final(self).spaced() == old(self).spaced(),
            final(self).fields() == old(self).fields().push((key@, value@)),
    {
        if !self.empty {
            self.text.push(',');
            if self.spaced {
                self.text.push(' ');
            }
        }
        self.text.push('"');
        self.text.append(key);
        self.text.push('"');
        self.text.push(':');
        if self.spaced {
            self.text.push(' ');
        }
        self.text.append(value);
        self.empty = false;
        self.fields = Ghost(old(self).fields@.push((key@, value@)));
        proof {
            let before = old(self).fields@;
            let after = before.push((key@, value@));
            assert(after.drop_last() =~= before);
            assert(self.text@ =~= seq!['{'] + members_text(self.spaced, after));
        }
    }

    pub(crate) fn finish(self) -> (text: String)
        requires
            self.wf(),
        ensures
            text@ == object_text(self.spaced(), self.fields()),
    {
        let mut text = self.text;
        text.push('}');
        assert(text@ =~= object_text(self.spaced, self.fields@));
        text
    }
}

/// The JSON list of the given strings.
pub fn list_of_strings(strings: &Vec<String>) -> (text: String)
    ensures
        text@ == strings_text(crate::directory::texts(strings@)),
{
    let ghost said = crate::directory::texts(strings@);
    let ghost quoted = said.map_values(|s: Seq<char>| json_string(s));
    let mut text = String::new();
    text.push('[');
    let mut i: usize = 0;
    assert(text@ =~= seq!['['] + items_text(quoted.take(0)));
    while i < strings.len()
        invariant
            i <= strings.len(),
            said == crate::directory::texts(strings@),
            quoted == said.map_values(|s: Seq<char>| json_string(s)),
            text@ == seq!['['] + items_text(quoted.take(i as int)),
        decreases strings.len() - i,
    {
        if i > 0 {
            text.push(',');
            text.push(' ');
        }
        let item = quote(strings[i].as_str());
        text.append(item.as_str());
        proof {
            let next = quoted.take(i + 1);
            assert(next.drop_last() =~= quoted.take(i as int));
            assert(next.last() == item@);
            assert(text@ =~= seq!['['] + items_text(next));
        }
        i = i + 1;
    }
    assert(quoted.take(strings.len() as int) =~= quoted);
    text.push(']');
    assert(text@ =~= strings_text(said));
    text
}

} // verus!
