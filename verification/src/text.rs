//! Text building blocks: characters, decimal numbers, escaping and trimming.
use vstd::prelude::*;
use vstd::string::*;
use vstd::utf8::*;

verus! {

/// `String::push` appends the given character to the end of the string.
pub assume_specification[ String::push ](s: &mut String, c: char)
    ensures
        final(s)@ == old(s)@.push(c),
;

/// The characters of `s`, in order.
pub fn chars_of(s: &str) -> (v: Vec<char>)
    ensures
        v@ == s@,
{
    let mut v: Vec<char> = Vec::new();
    for c in it: s.chars()
        invariant
            it.seq() == s@,
            v@ == s@.take(it.index() as int),
    {
        v.push(c);
    }
    v
}

/// Whether two strings hold the same characters.
pub fn same_text(a: &str, b: &str) -> (same: bool)
    ensures
        same == (a@ == b@),
{
    broadcast use group_utf8_lib;

    let x = a.as_bytes();
    let y = b.as_bytes();
    proof {
        assert(decode_utf8(encode_utf8(a@)) == a@);
        assert(decode_utf8(encode_utf8(b@)) == b@);
    }
    if x.len() != y.len() {
        return false;
    }
    for i in 0..x.len()
        invariant
            x@ == encode_utf8(a@),
            y@ == encode_utf8(b@),
            x.len() == y.len(),
            forall|j: int| 0 <= j < i ==> x@[j] == y@[j],
    {
        if x[i] != y[i] {
            return false;
        }
    }
    assert(x@ =~= y@);
    true
}

/// The decimal digit for `d`.
pub open spec fn digit_char(d: nat) -> char {
    (48 + d) as char
}

/// `n` written in decimal, without leading zeros.
pub open spec fn decimal(n: nat) -> Seq<char>
    decreases n,
{
    if n < 10 {
        seq![digit_char(n)]
    } else {
        decimal(n / 10).push(digit_char(n % 10))
    }
}

/// Appends `n` in decimal.
pub fn push_decimal(out: &mut String, n: u32)
    ensures
        final(out)@ == old(out)@ + decimal(n as nat),
    decreases n,
{
    if n >= 10 {
        push_decimal(out, n / 10);
    }
    let d: u8 = (n % 10) as u8;
    out.push((48 + d) as char);
}

/// The hexadecimal digit for `d`.
pub open spec fn hex_char(d: nat) -> char {
    if d < 10 {
        digit_char(d)
    } else {
        (87 + d) as char
    }
}

/// Whether `c` is a control character, which a JSON string must not hold as it is.
pub open spec fn is_control(c: char) -> bool {
    (c as u32) < 0x20
}

/// `c` as it is written in a JSON string: backslashes and quotes behind a backslash, control
/// characters by their number.
pub open spec fn escaped_char(c: char) -> Seq<char> {
    if c == '\\' || c == '"' {
        seq!['\\', c]
    } else if is_control(c) {
        seq!['\\', 'u', '0', '0', hex_char(c as nat / 16), hex_char(c as nat % 16)]
    } else {
        seq![c]
    }
}

/// `s` made fit to stand inside a JSON string.
pub open spec fn escaped(s: Seq<char>) -> Seq<char>
    decreases s.len(),
{
    if s.len() == 0 {
        Seq::empty()
    } else {
        escaped(s.drop_last()) + escaped_char(s.last())
    }
}

fn push_hex(out: &mut String, d: u8)
    requires
        d < 16,
    ensures
        final(out)@ == old(out)@.push(hex_char(d as nat)),
{
    if d < 10 {
        out.push((48 + d) as char);
    } else {
        out.push((87 + d) as char);
    }
}

fn push_escaped(out: &mut String, c: char)
    ensures
        final(out)@ == old(out)@ + escaped_char(c),
{
    let ghost was = out@;
    if c == '\\' || c == '"' {
        out.push('\\');
        out.push(c);
    } else if (c as u32) < 0x20 {
        let v: u8 = (c as u32) as u8;
        out.push('\\');
        out.push('u');
        out.push('0');
        out.push('0');
        push_hex(out, v / 16);
        push_hex(out, v % 16);
    } else {
        out.push(c);
    }
    assert(out@ =~= was + escaped_char(c));
}

/// Makes `s` fit to stand inside a JSON string.
pub fn escape(s: &str) -> (out: String)
    ensures
        out@ == escaped(s@),
{
    let mut out = String::new();
    for c in it: s.chars()
        invariant
            it.seq() == s@,
            out@ == escaped(s@.take(it.index() as int)),
    {
        proof {
            assert(s@.take(it.index() + 1).drop_last() =~= s@.take(it.index() as int));
        }
        push_escaped(&mut out, c);
    }
    assert(s@.take(s@.len() as int) =~= s@);
    out
}

/// The value of a hexadecimal digit.
pub open spec fn hex_value(c: char) -> nat {
    if '0' <= c <= '9' {
        (c as nat - 48) as nat
    } else if 'a' <= c <= 'f' {
        (c as nat - 87) as nat
    } else {
        (c as nat - 55) as nat
    }
}

/// What the letter `c` stands for behind a backslash.
pub open spec fn named_char(c: char) -> char {
    if c == 'b' {
        '\u{8}'
    } else if c == 't' {
        '\t'
    } else if c == 'n' {
        '\n'
    } else if c == 'f' {
        '\u{C}'
    } else if c == 'r' {
        '\r'
    } else {
        c
    }
}

/// What a reader of the JSON string body `s` sees, where no character is written as a pair of
/// surrogates.
pub open spec fn unescaped(s: Seq<char>) -> Seq<char>
    decreases s.len(),
{
    if s.len() == 0 {
        Seq::empty()
    } else if s[0] != '\\' || s.len() < 2 {
        seq![s[0]] + unescaped(s.skip(1))
    } else if s[1] == 'u' && s.len() >= 6 {
        let code = 4096 * hex_value(s[2]) + 256 * hex_value(s[3]) + 16 * hex_value(s[4])
            + hex_value(s[5]);
        seq![code as char] + unescaped(s.skip(6))
    } else {
        seq![named_char(s[1])] + unescaped(s.skip(2))
    }
}

/// How many characters of `s` precede the first quote that no backslash escapes.
pub open spec fn quote_offset(s: Seq<char>) -> nat
    decreases s.len(),
{
    if s.len() == 0 || s[0] == '"' {
        0
    } else if s[0] == '\\' && s.len() >= 2 {
        2 + quote_offset(s.skip(2))
    } else {
        1 + quote_offset(s.skip(1))
    }
}

proof fn lemma_escaped_first(s: Seq<char>)
    requires
        s.len() > 0,
    ensures
        escaped(s) == escaped_char(s[0]) + escaped(s.skip(1)),
    decreases s.len(),
{
    let init = s.drop_last();
    if init.len() == 0 {
        assert(s.skip(1) =~= Seq::<char>::empty());
        assert(init =~= Seq::<char>::empty());
        assert(escaped(s) =~= escaped_char(s[0]) + escaped(s.skip(1)));
    } else {
        lemma_escaped_first(init);
        assert(s.skip(1).drop_last() =~= init.skip(1));
        assert(escaped(s) =~= escaped_char(s[0]) + escaped(s.skip(1)));
    }
}

proof fn lemma_hex(d: nat)
    requires
        d < 16,
    ensures
        hex_value(hex_char(d)) == d,
        hex_char(d) as u32 >= 0x20,
        hex_char(d) != '\\',
        hex_char(d) != '"',
{
    if d < 10 {
        let x = (48 + d) as char;
        assert('0' <= x && x <= '9');
    } else {
        let x = (87 + d) as char;
        assert('a' <= x && x <= 'f');
    }
}

proof fn lemma_control(c: char)
    requires
        is_control(c),
    ensures
        c as nat == 16 * (c as nat / 16) + c as nat % 16,
        c as nat / 16 < 16,
        (c as nat) as char == c,
{
}

proof fn lemma_escaped_char(c: char)
    ensures
        forall|k: int|
            0 <= k < escaped_char(c).len() ==> #[trigger] escaped_char(c)[k] as u32 >= 0x20,
{
    if is_control(c) {
        lemma_control(c);
        lemma_hex(c as nat / 16);
        lemma_hex(c as nat % 16);
    }
}

/// Reading an escaped text back gives the text.
pub proof fn escape_reads_back(s: Seq<char>)
    ensures
        unescaped(escaped(s)) == s,
    decreases s.len(),
{
    if s.len() > 0 {
        lemma_escaped_first(s);
        escape_reads_back(s.skip(1));
        let e = escaped(s);
        let c = s[0];
        let n = escaped_char(c).len() as int;
        assert(e.skip(n) =~= escaped(s.skip(1)));
        assert forall|k: int| 0 <= k < n implies #[trigger] e[k] == escaped_char(c)[k] by {}
        if is_control(c) {
            let v = c as nat;
            assert(e[2] == '0' && e[3] == '0');
            lemma_control(c);
            lemma_hex(v / 16);
            lemma_hex(v % 16);
        }
        assert(seq![c] + s.skip(1) =~= s);
    }
}

/// The quote that closes a JSON string is the one written after the escaped text: no
/// text can end its own string early.
pub proof fn escape_keeps_the_closing_quote(s: Seq<char>, after: Seq<char>)
    ensures
        quote_offset(escaped(s) + seq!['"'] + after) == escaped(s).len(),
    decreases s.len(),
{
    let e = escaped(s);
    let whole = e + seq!['"'] + after;
    if s.len() == 0 {
        assert(whole[0] == '"');
    } else {
        lemma_escaped_first(s);
        escape_keeps_the_closing_quote(s.skip(1), after);
        let rest = escaped(s.skip(1)) + seq!['"'] + after;
        let n = escaped_char(s[0]).len() as int;
        assert(whole.skip(n) =~= rest);
        assert forall|k: int| 0 <= k < n implies #[trigger] whole[k] == escaped_char(s[0])[k] by {}
        if is_control(s[0]) {
            lemma_control(s[0]);
            lemma_hex(s[0] as nat / 16);
            lemma_hex(s[0] as nat % 16);
            assert(whole.skip(2).skip(1) =~= whole.skip(3));
            assert(whole.skip(3).skip(1) =~= whole.skip(4));
            assert(whole.skip(4).skip(1) =~= whole.skip(5));
            assert(whole.skip(5).skip(1) =~= whole.skip(6));
            reveal_with_fuel(quote_offset, 6);
        }
    }
}

/// An escaped text holds no control characters, so that it can stand in a JSON string.
pub proof fn escape_leaves_no_control_characters(s: Seq<char>)
    ensures
        forall|k: int| 0 <= k < escaped(s).len() ==> #[trigger] escaped(s)[k] as u32 >= 0x20,
    decreases s.len(),
{
    if s.len() > 0 {
        escape_leaves_no_control_characters(s.drop_last());
        let c = s.last();
        lemma_escaped_char(c);
        let n = escaped(s.drop_last()).len() as int;
        assert forall|k: int| 0 <= k < escaped(s).len() implies #[trigger] escaped(s)[k] as u32
            >= 0x20 by {
            if k < n {
                assert(escaped(s)[k] == escaped(s.drop_last())[k]);
            } else {
                assert(escaped(s)[k] == escaped_char(c)[k - n]);
            }
        }
    }
}

/// The contents of a list of strings.
pub open spec fn views(v: Seq<String>) -> Seq<Seq<char>> {
    Seq::new(v.len(), |i: int| v[i]@)
}

/// The number of UTF-8 bytes of `c`.
pub open spec fn utf8_width(c: char) -> nat {
    encode_scalar(c as u32).len()
}

/// The number of UTF-16 code units of `c`.
pub open spec fn utf16_width(c: char) -> nat {
    if c as u32 >= 0x10000 {
        2
    } else {
        1
    }
}

/// The number of UTF-8 bytes of `c`.
pub fn len_utf8(c: char) -> (n: usize)
    ensures
        n == utf8_width(c),
        1 <= n <= 4,
{
    let v: u32 = c as u32;
    if v <= 0x7F {
        1
    } else if v <= 0x7FF {
        2
    } else if v <= 0xFFFF {
        3
    } else {
        4
    }
}

/// The number of UTF-16 code units of `c`.
pub fn len_utf16(c: char) -> (n: u32)
    ensures
        n == utf16_width(c),
        1 <= n <= 2,
{
    if c as u32 >= 0x10000 {
        2
    } else {
        1
    }
}

/// Whether `c` has Unicode's `White_Space` property.
pub open spec fn is_white_space(c: char) -> bool {
    let v = c as u32;
    ||| 0x09 <= v <= 0x0D
    ||| v == 0x20
    ||| v == 0x85
    ||| v == 0xA0
    ||| v == 0x1680
    ||| 0x2000 <= v <= 0x200A
    ||| v == 0x2028
    ||| v == 0x2029
    ||| v == 0x202F
    ||| v == 0x205F
    ||| v == 0x3000
}

/// Whether `c` has Unicode's `White_Space` property.
pub fn white_space(c: char) -> (yes: bool)
    ensures
        yes == is_white_space(c),
{
    let v: u32 = c as u32;
    (0x09 <= v && v <= 0x0D) || v == 0x20 || v == 0x85 || v == 0xA0 || v == 0x1680 || (0x2000 <= v
        && v <= 0x200A) || v == 0x2028 || v == 0x2029 || v == 0x202F || v == 0x205F || v == 0x3000
}

/// `s` without its leading white space.
pub open spec fn trimmed_start(s: Seq<char>) -> Seq<char>
    decreases s.len(),
{
    if s.len() > 0 && is_white_space(s[0]) {
        trimmed_start(s.skip(1))
    } else {
        s
    }
}

/// `s` without its trailing white space.
pub open spec fn trimmed_end(s: Seq<char>) -> Seq<char>
    decreases s.len(),
{
    if s.len() > 0 && is_white_space(s.last()) {
        trimmed_end(s.drop_last())
    } else {
        s
    }
}

/// `s` without white space at either end.
pub open spec fn trimmed(s: Seq<char>) -> Seq<char> {
    trimmed_end(trimmed_start(s))
}

/// Where the leading white space of `v[from..to]` ends.
pub fn skip_white(v: &Vec<char>, from: usize, to: usize) -> (at: usize)
    requires
        from <= to <= v.len(),
    ensures
        from <= at <= to,
        v@.subrange(at as int, to as int) == trimmed_start(v@.subrange(from as int, to as int)),
{
    let mut at: usize = from;
    while at < to && white_space(v[at])
        invariant
            from <= at <= to <= v.len(),
            trimmed_start(v@.subrange(at as int, to as int)) == trimmed_start(
                v@.subrange(from as int, to as int),
            ),
        decreases to - at,
    {
        assert(v@.subrange(at as int, to as int).skip(1) =~= v@.subrange(at + 1, to as int));
        at = at + 1;
    }
    at
}

/// Where the trailing white space of `v[from..to]` starts.
pub fn skip_white_back(v: &Vec<char>, from: usize, to: usize) -> (at: usize)
    requires
        from <= to <= v.len(),
    ensures
        from <= at <= to,
        v@.subrange(from as int, at as int) == trimmed_end(v@.subrange(from as int, to as int)),
{
    let mut at: usize = to;
    while at > from && white_space(v[at - 1])
        invariant
            from <= at <= to <= v.len(),
            trimmed_end(v@.subrange(from as int, at as int)) == trimmed_end(
                v@.subrange(from as int, to as int),
            ),
        decreases at - from,
    {
        assert(v@.subrange(from as int, at as int).drop_last() =~= v@.subrange(
            from as int,
            at - 1,
        ));
        at = at - 1;
    }
    at
}

/// The string of the characters `v[from..to]`.
pub fn string_of(v: &Vec<char>, from: usize, to: usize) -> (out: String)
    requires
        from <= to <= v.len(),
    ensures
        out@ == v@.subrange(from as int, to as int),
{
    let mut out = String::new();
    for i in from..to
        invariant
            from <= to <= v.len(),
            out@ == v@.subrange(from as int, i as int),
    {
        out.push(v[i]);
        assert(out@ =~= v@.subrange(from as int, i + 1));
    }
    out
}

} // verus!
