//! JSON: the values that are handed to the editor, their text, and how it reads back.
use vstd::prelude::*;
use vstd::string::*;
use crate::text::{
    decimal, digit_char, escape, escape_keeps_the_closing_quote, escape_leaves_no_control_characters,
    escape_reads_back, escaped, is_control, push_decimal, quote_offset, unescaped,
};

verus! {

/// A JSON value: a natural number, a string, an array or an object.
pub enum Json {
    Number(nat),
    Text(Seq<char>),
    List(Seq<Json>),
    Object(Seq<Entry>),
}

/// A member of a JSON object.
pub struct Entry {
    pub key: Seq<char>,
    pub value: Json,
}

/// The parts one after the other, with a comma between neighbours.
pub open spec fn comma_joined(parts: Seq<Seq<char>>) -> Seq<char>
    decreases parts.len(),
{
    if parts.len() == 0 {
        Seq::empty()
    } else if parts.len() == 1 {
        parts[0]
    } else {
        comma_joined(parts.drop_last()) + seq![','] + parts.last()
    }
}

/// The JSON string that holds `t`.
pub open spec fn quoted(t: Seq<char>) -> Seq<char> {
    seq!['"'] + escaped(t) + seq!['"']
}

/// The text of a JSON value, without white space between its parts.
pub open spec fn json_text(j: Json) -> Seq<char>
    decreases j,
{
    match j {
        Json::Number(n) => decimal(n),
        Json::Text(t) => quoted(t),
        Json::List(items) => seq!['['] + comma_joined(item_texts(items)) + seq![']'],
        Json::Object(entries) => seq!['{'] + comma_joined(entry_texts(entries)) + seq!['}'],
    }
}

/// The texts of the items of an array.
pub open spec fn item_texts(items: Seq<Json>) -> Seq<Seq<char>>
    decreases items,
{
    if items.len() == 0 {
        Seq::empty()
    } else {
        item_texts(items.drop_last()).push(json_text(items.last()))
    }
}

/// The text of a member of an object.
pub open spec fn entry_text(e: Entry) -> Seq<char>
    decreases e,
{
    quoted(e.key) + seq![':'] + json_text(e.value)
}

/// The texts of the members of an object.
pub open spec fn entry_texts(entries: Seq<Entry>) -> Seq<Seq<char>>
    decreases entries,
{
    if entries.len() == 0 {
        Seq::empty()
    } else {
        entry_texts(entries.drop_last()).push(entry_text(entries.last()))
    }
}

/// A JSON value to be written.
#[derive(Debug)]
pub enum Value {
    Number(u32),
    Text(String),
    List(Vec<Value>),
    Object(Vec<Member>),
}

/// A member of a JSON object to be written.
#[derive(Debug)]
pub struct Member {
    pub key: &'static str,
    pub value: Value,
}

/// The JSON value that `v` stands for.
pub open spec fn json_of(v: Value) -> Json
    decreases v,
{
    match v {
        Value::Number(n) => Json::Number(n as nat),
        Value::Text(t) => Json::Text(t@),
        Value::List(items) => Json::List(items_of(items@)),
        Value::Object(members) => Json::Object(entries_of(members@)),
    }
}

/// The JSON values that `items` stand for.
pub open spec fn items_of(items: Seq<Value>) -> Seq<Json>
    decreases items,
{
    if items.len() == 0 {
        Seq::empty()
    } else {
        items_of(items.drop_last()).push(json_of(items.last()))
    }
}

/// The member of a JSON object that `m` stands for.
pub open spec fn entry_of(m: Member) -> Entry
    decreases m,
{
    Entry { key: m.key@, value: json_of(m.value) }
}

/// The members of a JSON object that `members` stand for.
pub open spec fn entries_of(members: Seq<Member>) -> Seq<Entry>
    decreases members,
{
    if members.len() == 0 {
        Seq::empty()
    } else {
        entries_of(members.drop_last()).push(entry_of(members.last()))
    }
}

/// One more item.
pub(crate) proof fn lemma_items_push(items: Seq<Value>, v: Value)
    ensures
        items_of(items.push(v)) == items_of(items).push(json_of(v)),
{
    assert(items.push(v).drop_last() =~= items);
}

/// The items of two lists, one after the other.
pub(crate) proof fn lemma_items_concat(a: Seq<Value>, b: Seq<Value>)
    ensures
        items_of(a + b) == items_of(a) + items_of(b),
    decreases b.len(),
{
    if b.len() == 0 {
        assert(a + b =~= a);
        assert(items_of(a) + items_of(b) =~= items_of(a));
    } else {
        assert((a + b).drop_last() =~= a + b.drop_last());
        lemma_items_concat(a, b.drop_last());
        assert(items_of(a + b) =~= items_of(a) + items_of(b));
    }
}

/// One more member.
pub(crate) proof fn lemma_entries_push(members: Seq<Member>, m: Member)
    ensures
        entries_of(members.push(m)) == entries_of(members).push(entry_of(m)),
{
    assert(members.push(m).drop_last() =~= members);
}

fn push_quoted(out: &mut String, t: &str)
    ensures
        final(out)@ == old(out)@ + quoted(t@),
{
    let ghost was = out@;
    out.push('"');
    out.append(escape(t).as_str());
    out.push('"');
    assert(out@ =~= was + quoted(t@));
}

fn push_json(out: &mut String, v: &Value)
    ensures
        final(out)@ == old(out)@ + json_text(json_of(*v)),
    decreases v,
{
    let ghost was = out@;
    match v {
        Value::Number(n) => push_decimal(out, *n),
        Value::Text(t) => push_quoted(out, t.as_str()),
        Value::List(items) => {
            out.push('[');
            push_items(out, items);
            out.push(']');
        },
        Value::Object(members) => {
            out.push('{');
            push_members(out, members);
            out.push('}');
        },
    }
    assert(out@ =~= was + json_text(json_of(*v)));
}

fn push_items(out: &mut String, items: &Vec<Value>)
    ensures
        final(out)@ == old(out)@ + comma_joined(item_texts(items_of(items@))),
    decreases items,
{
    let ghost was = out@;
    assert(out@ =~= was + comma_joined(item_texts(items_of(items@.take(0)))));
    for i in 0..items.len()
        invariant
            out@ == was + comma_joined(item_texts(items_of(items@.take(i as int)))),
            item_texts(items_of(items@.take(i as int))).len() == i,
    {
        let ghost before = items_of(items@.take(i as int));
        proof {
            assert(items@.take(i + 1).drop_last() =~= items@.take(i as int));
            let all = items_of(items@.take(i + 1));
            assert(all.drop_last() =~= before);
            assert(item_texts(all).drop_last() =~= item_texts(before));
        }
        if i > 0 {
            out.push(',');
        }
        push_json(out, &items[i]);
        assert(out@ =~= was + comma_joined(item_texts(items_of(items@.take(i + 1)))));
    }
    assert(items@.take(items.len() as int) =~= items@);
}

fn push_members(out: &mut String, members: &Vec<Member>)
    ensures
        final(out)@ == old(out)@ + comma_joined(entry_texts(entries_of(members@))),
    decreases members,
{
    let ghost was = out@;
    assert(out@ =~= was + comma_joined(entry_texts(entries_of(members@.take(0)))));
    for i in 0..members.len()
        invariant
            out@ == was + comma_joined(entry_texts(entries_of(members@.take(i as int)))),
            entry_texts(entries_of(members@.take(i as int))).len() == i,
    {
        let ghost before = entries_of(members@.take(i as int));
        proof {
            assert(members@.take(i + 1).drop_last() =~= members@.take(i as int));
            let all = entries_of(members@.take(i + 1));
            assert(all.drop_last() =~= before);
            assert(entry_texts(all).drop_last() =~= entry_texts(before));
        }
        if i > 0 {
            out.push(',');
        }
        let ghost ahead = out@;
        push_quoted(out, members[i].key);
        out.push(':');
        push_json(out, &members[i].value);
        assert(out@ =~= ahead + entry_text(entry_of(members@[i as int])));
        assert(out@ =~= was + comma_joined(entry_texts(entries_of(members@.take(i + 1)))));
    }
    assert(members@.take(members.len() as int) =~= members@);
}

/// Writes a JSON value.
pub fn write_json(v: &Value) -> (out: String)
    ensures
        out@ == json_text(json_of(*v)),
{
    let mut out = String::new();
    push_json(&mut out, v);
    assert(out@ =~= json_text(json_of(*v)));
    out
}

/// Whether `c` is a decimal digit.
pub open spec fn is_digit(c: char) -> bool {
    '0' <= c <= '9'
}

/// How many digits `s` starts with.
pub open spec fn digits_len(s: Seq<char>) -> nat
    decreases s.len(),
{
    if s.len() > 0 && is_digit(s[0]) {
        1 + digits_len(s.skip(1))
    } else {
        0
    }
}

/// The number that the digits `s` stand for.
pub open spec fn number_of(s: Seq<char>) -> nat
    decreases s.len(),
{
    if s.len() == 0 {
        0
    } else {
        10 * number_of(s.drop_last()) + (s.last() as nat - 48) as nat
    }
}

/// Reads the JSON string behind the opening quote in front of `s`: what it holds, and what
/// follows the closing quote. Control characters must not stand in it.
pub open spec fn read_text(s: Seq<char>) -> Option<(Seq<char>, Seq<char>)> {
    let n = quote_offset(s) as int;
    if n < s.len() && (forall|k: int| 0 <= k < n ==> !is_control(#[trigger] s[k])) {
        Some((unescaped(s.take(n)), s.skip(n + 1)))
    } else {
        None
    }
}

/// Reads the JSON value at the front of `s`: the value, and what follows it. This is the part
/// of JSON without white space, signs, fractions, exponents and the three literal names.
pub open spec fn read_json(s: Seq<char>) -> Option<(Json, Seq<char>)>
    decreases s.len(), 0nat,
{
    if s.len() == 0 {
        None
    } else if s[0] == '"' {
        match read_text(s.skip(1)) {
            Some((t, rest)) => Some((Json::Text(t), rest)),
            None => None,
        }
    } else if is_digit(s[0]) {
        let n = digits_len(s) as int;
        if s[0] == '0' && n > 1 {
            None
        } else {
            Some((Json::Number(number_of(s.take(n))), s.skip(n)))
        }
    } else if s[0] == '[' {
        if s.len() > 1 && s[1] == ']' {
            Some((Json::List(Seq::empty()), s.skip(2)))
        } else {
            match read_items(s.skip(1)) {
                Some((items, rest)) => Some((Json::List(items), rest)),
                None => None,
            }
        }
    } else if s[0] == '{' {
        if s.len() > 1 && s[1] == '}' {
            Some((Json::Object(Seq::empty()), s.skip(2)))
        } else {
            match read_entries(s.skip(1)) {
                Some((entries, rest)) => Some((Json::Object(entries), rest)),
                None => None,
            }
        }
    } else {
        None
    }
}

/// Reads the items of an array up to its end.
pub open spec fn read_items(s: Seq<char>) -> Option<(Seq<Json>, Seq<char>)>
    decreases s.len(), 1nat,
{
    match read_json(s) {
        Some((item, rest)) => if 0 < rest.len() < s.len() && rest[0] == ',' {
            match read_items(rest.skip(1)) {
                Some((items, after)) => Some((seq![item] + items, after)),
                None => None,
            }
        } else if rest.len() > 0 && rest[0] == ']' {
            Some((seq![item], rest.skip(1)))
        } else {
            None
        },
        None => None,
    }
}

/// Reads the members of an object up to its end.
pub open spec fn read_entries(s: Seq<char>) -> Option<(Seq<Entry>, Seq<char>)>
    decreases s.len(), 1nat,
{
    if s.len() == 0 || s[0] != '"' {
        None
    } else {
        match read_text(s.skip(1)) {
            Some((key, colon)) => if 0 < colon.len() < s.len() && colon[0] == ':' {
                match read_json(colon.skip(1)) {
                    Some((value, rest)) => {
                        let entry = Entry { key, value };
                        if 0 < rest.len() < s.len() && rest[0] == ',' {
                            match read_entries(rest.skip(1)) {
                                Some((entries, after)) => Some((seq![entry] + entries, after)),
                                None => None,
                            }
                        } else if rest.len() > 0 && rest[0] == '}' {
                            Some((seq![entry], rest.skip(1)))
                        } else {
                            None
                        }
                    },
                    None => None,
                }
            } else {
                None
            },
            None => None,
        }
    }
}

proof fn lemma_digit(d: nat)
    requires
        d < 10,
    ensures
        is_digit(digit_char(d)),
        digit_char(d) as nat == 48 + d,
        digit_char(d) == '0' <==> d == 0,
{
}

proof fn lemma_decimal(n: nat)
    ensures
        decimal(n).len() > 0,
        forall|k: int| 0 <= k < decimal(n).len() ==> is_digit(#[trigger] decimal(n)[k]),
        decimal(n)[0] == '0' ==> n == 0,
        n == 0 ==> decimal(n).len() == 1,
        number_of(decimal(n)) == n,
    decreases n,
{
    lemma_digit(n % 10);
    if n < 10 {
        assert(decimal(n).drop_last() =~= Seq::<char>::empty());
        reveal_with_fuel(number_of, 2);
        assert(number_of(decimal(n)) == n);
    } else {
        lemma_decimal(n / 10);
        assert(decimal(n).drop_last() =~= decimal(n / 10));
        assert(decimal(n)[0] == decimal(n / 10)[0]);
    }
}

proof fn lemma_digits_len(digits: Seq<char>, rest: Seq<char>)
    requires
        forall|k: int| 0 <= k < digits.len() ==> is_digit(#[trigger] digits[k]),
        rest.len() > 0 ==> !is_digit(rest[0]),
    ensures
        digits_len(digits + rest) == digits.len(),
    decreases digits.len(),
{
    if digits.len() == 0 {
        assert(digits + rest =~= rest);
    } else {
        assert((digits + rest)[0] == digits[0]);
        assert((digits + rest).skip(1) =~= digits.skip(1) + rest);
        lemma_digits_len(digits.skip(1), rest);
    }
}

proof fn lemma_quoted_reads_back(t: Seq<char>, rest: Seq<char>)
    ensures
        (quoted(t) + rest)[0] == '"',
        read_text((quoted(t) + rest).skip(1)) == Some((t, rest)),
{
    let s = (quoted(t) + rest).skip(1);
    let e = escaped(t);
    assert(s =~= e + seq!['"'] + rest);
    escape_keeps_the_closing_quote(t, rest);
    escape_leaves_no_control_characters(t);
    escape_reads_back(t);
    assert forall|k: int| 0 <= k < e.len() implies !is_control(#[trigger] s[k]) by {
        assert(s[k] == e[k]);
    }
    assert(s.take(e.len() as int) =~= e);
    assert(s.skip(e.len() as int + 1) =~= rest);
}

proof fn lemma_comma_joined_first(parts: Seq<Seq<char>>)
    requires
        parts.len() > 1,
    ensures
        comma_joined(parts) == parts[0] + seq![','] + comma_joined(parts.skip(1)),
    decreases parts.len(),
{
    let init = parts.drop_last();
    let tail = parts.skip(1);
    assert(tail.drop_last() =~= init.skip(1));
    if init.len() > 1 {
        lemma_comma_joined_first(init);
        assert(tail.last() == parts.last());
    } else {
        assert(comma_joined(init) == parts[0]);
        assert(comma_joined(tail) == parts[1]);
    }
    assert(comma_joined(parts) =~= parts[0] + seq![','] + comma_joined(tail));
}

proof fn lemma_item_texts(items: Seq<Json>)
    ensures
        item_texts(items).len() == items.len(),
        forall|k: int|
            0 <= k < items.len() ==> #[trigger] item_texts(items)[k] == json_text(items[k]),
    decreases items.len(),
{
    if items.len() > 0 {
        lemma_item_texts(items.drop_last());
    }
}

proof fn lemma_entry_texts(entries: Seq<Entry>)
    ensures
        entry_texts(entries).len() == entries.len(),
        forall|k: int|
            0 <= k < entries.len() ==> #[trigger] entry_texts(entries)[k] == entry_text(
                entries[k],
            ),
    decreases entries.len(),
{
    if entries.len() > 0 {
        lemma_entry_texts(entries.drop_last());
    }
}

proof fn lemma_json_text_first(j: Json)
    ensures
        json_text(j).len() > 0,
        json_text(j)[0] != ']',
        json_text(j)[0] != '}',
{
    if let Json::Number(n) = j {
        lemma_decimal(n);
        assert(is_digit(json_text(j)[0]));
    }
}

/// The text of a JSON value is JSON, and reading it gives the value back. What follows a
/// number must not start with a digit.
pub proof fn json_reads_back(j: Json, rest: Seq<char>)
    requires
        rest.len() > 0 ==> !is_digit(rest[0]),
    ensures
        read_json(json_text(j) + rest) == Some((j, rest)),
    decreases j, 0nat,
{
    let s = json_text(j) + rest;
    match j {
        Json::Number(n) => {
            lemma_decimal(n);
            lemma_digits_len(decimal(n), rest);
            assert(s[0] == decimal(n)[0]);
            assert(is_digit(decimal(n)[0]));
            assert(s.take(decimal(n).len() as int) =~= decimal(n));
            assert(s.skip(decimal(n).len() as int) =~= rest);
        },
        Json::Text(t) => lemma_quoted_reads_back(t, rest),
        Json::List(items) => {
            assert(s[0] == '[');
            if items.len() == 0 {
                assert(s[1] == ']');
                assert(s.skip(2) =~= rest);
                assert(items =~= Seq::<Json>::empty());
            } else {
                lemma_items_read_back(items, rest);
                let inner = comma_joined(item_texts(items)) + seq![']'] + rest;
                assert(s.skip(1) =~= inner);
                assert(s[1] == inner[0]);
            }
        },
        Json::Object(entries) => {
            assert(s[0] == '{');
            if entries.len() == 0 {
                assert(s[1] == '}');
                assert(s.skip(2) =~= rest);
                assert(entries =~= Seq::<Entry>::empty());
            } else {
                lemma_entries_read_back(entries, rest);
                let inner = comma_joined(entry_texts(entries)) + seq!['}'] + rest;
                assert(s.skip(1) =~= inner);
                assert(s[1] == inner[0]);
            }
        },
    }
}

proof fn lemma_items_read_back(items: Seq<Json>, rest: Seq<char>)
    requires
        items.len() > 0,
    ensures
        read_items(comma_joined(item_texts(items)) + seq![']'] + rest) == Some((items, rest)),
        (comma_joined(item_texts(items)) + seq![']'] + rest)[0] != ']',
    decreases items, 0nat,
{
    let texts = item_texts(items);
    let first = json_text(items[0]);
    let s = comma_joined(texts) + seq![']'] + rest;
    lemma_item_texts(items);
    lemma_json_text_first(items[0]);
    assert(texts[0] == first);
    if items.len() == 1 {
        let after = seq![']'] + rest;
        assert(s =~= first + after);
        json_reads_back(items[0], after);
        assert(after.skip(1) =~= rest);
        assert(items =~= seq![items[0]]);
        assert(s[0] == first[0]);
    } else {
        let tail = items.skip(1);
        lemma_item_texts(tail);
        assert(texts.skip(1) =~= item_texts(tail));
        lemma_comma_joined_first(texts);
        let inner = comma_joined(item_texts(tail)) + seq![']'] + rest;
        let after = seq![','] + inner;
        assert(s =~= first + after);
        json_reads_back(items[0], after);
        lemma_items_read_back(tail, rest);
        assert(after.skip(1) =~= inner);
        assert(items =~= seq![items[0]] + tail);
        assert(s[0] == first[0]);
    }
}

proof fn lemma_entries_read_back(entries: Seq<Entry>, rest: Seq<char>)
    requires
        entries.len() > 0,
    ensures
        read_entries(comma_joined(entry_texts(entries)) + seq!['}'] + rest) == Some(
            (entries, rest),
        ),
        (comma_joined(entry_texts(entries)) + seq!['}'] + rest)[0] != '}',
    decreases entries, 0nat,
{
    let texts = entry_texts(entries);
    let e = entries[0];
    let s = comma_joined(texts) + seq!['}'] + rest;
    lemma_entry_texts(entries);
    assert(texts[0] == entry_text(e));
    let tail = entries.skip(1);
    let inner = comma_joined(entry_texts(tail)) + seq!['}'] + rest;
    let after = if entries.len() == 1 {
        seq!['}'] + rest
    } else {
        seq![','] + inner
    };
    let value = json_text(e.value) + after;
    let colon = seq![':'] + value;
    if entries.len() == 1 {
        assert(after.skip(1) =~= rest);
        assert(entries =~= seq![e]);
    } else {
        lemma_entry_texts(tail);
        assert(texts.skip(1) =~= entry_texts(tail));
        lemma_comma_joined_first(texts);
        lemma_entries_read_back(tail, rest);
        assert(after.skip(1) =~= inner);
        assert(entries =~= seq![e] + tail);
    }
    assert(s =~= quoted(e.key) + colon);
    lemma_quoted_reads_back(e.key, colon);
    assert(colon.skip(1) =~= value);
    json_reads_back(e.value, after);
    assert(e == Entry { key: e.key, value: e.value });
}

/// The members that give a source range.
pub open spec fn range_entries(line: int, col: int, end_line: int, end_col: int) -> Seq<Entry> {
    seq![
        Entry { key: "line"@, value: Json::Number(line as nat) },
        Entry { key: "col"@, value: Json::Number(col as nat) },
        Entry { key: "endLine"@, value: Json::Number(end_line as nat) },
        Entry { key: "endCol"@, value: Json::Number(end_col as nat) },
    ]
}

/// Adds the members that give a source range.
pub fn add_range(members: &mut Vec<Member>, line: u32, col: u32, end_line: u32, end_col: u32)
    ensures
        entries_of(final(members)@) == entries_of(old(members)@) + range_entries(
            line as int,
            col as int,
            end_line as int,
            end_col as int,
        ),
{
    let ghost was = entries_of(members@);
    add_number(members, "line", line);
    add_number(members, "col", col);
    add_number(members, "endLine", end_line);
    add_number(members, "endCol", end_col);
    assert(entries_of(members@) =~= was + range_entries(
        line as int,
        col as int,
        end_line as int,
        end_col as int,
    ));
}

/// Adds a member.
pub fn add_member(members: &mut Vec<Member>, key: &'static str, value: Value)
    ensures
        entries_of(final(members)@) == entries_of(old(members)@).push(
            Entry { key: key@, value: json_of(value) },
        ),
{
    proof {
        lemma_entries_push(members@, Member { key, value });
    }
    members.push(Member { key, value });
}

/// Adds a member that is a number.
pub fn add_number(members: &mut Vec<Member>, key: &'static str, n: u32)
    ensures
        entries_of(final(members)@) == entries_of(old(members)@).push(
            Entry { key: key@, value: Json::Number(n as nat) },
        ),
{
    add_member(members, key, Value::Number(n));
}

/// Adds a member that is a string.
pub fn add_text(members: &mut Vec<Member>, key: &'static str, t: &str)
    ensures
        entries_of(final(members)@) == entries_of(old(members)@).push(
            Entry { key: key@, value: Json::Text(t@) },
        ),
{
    add_member(members, key, Value::Text(t.to_owned()));
}

} // verus!
