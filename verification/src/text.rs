//! Text primitives shared by the routing table and the error reports.

use std::str::Chars;
use vstd::prelude::*;
use vstd::std_specs::iter::IteratorSpec;

verus! {

/// Tells whether `text` begins with the characters of `prefix`.
pub fn starts_with(text: &str, prefix: &str) -> (r: bool)
    ensures
        r == prefix@.is_prefix_of(text@),
{
    let mut rest_of_text: Chars<'_> = text.chars();
    let mut rest_of_prefix: Chars<'_> = prefix.chars();
    let ghost mut seen: int = 0;
    loop
        invariant
            0 <= seen <= prefix@.len(),
            seen <= text@.len(),
            rest_of_prefix.remaining() == prefix@.skip(seen),
            rest_of_text.remaining() == text@.skip(seen),
            prefix@.take(seen) == text@.take(seen),
            rest_of_prefix.decrease() is Some,
        decreases prefix@.len() - seen,
    {
        match rest_of_prefix.next() {
            None => {
                assert(prefix@ == prefix@.take(seen));
                return true;
            },
            Some(expected) => {
                match rest_of_text.next() {
                    None => {
                        return false;
                    },
                    Some(found) => {
                        if expected != found {
                            assert(prefix@[seen] != text@[seen]);
                            return false;
                        }
                    },
                }
            },
        }
        proof {
            assert(prefix@.take(seen + 1) == prefix@.take(seen).push(prefix@[seen]));
            assert(text@.take(seen + 1) == text@.take(seen).push(text@[seen]));
            seen = seen + 1;
        }
    }
}

/// The character that stands for the decimal digit `d`.
pub open spec fn digit_char(d: nat) -> char {
    if d == 0 {
        '0'
    } else if d == 1 {
        '1'
    } else if d == 2 {
        '2'
    } else if d == 3 {
        '3'
    } else if d == 4 {
        '4'
    } else if d == 5 {
        '5'
    } else if d == 6 {
        '6'
    } else if d == 7 {
        '7'
    } else if d == 8 {
        '8'
    } else {
        '9'
    }
}

/// The character that stands for the hexadecimal digit `d`, in lower case.
pub open spec fn hex_char(d: nat) -> char {
    if d < 10 {
        digit_char(d)
    } else if d == 10 {
        'a'
    } else if d == 11 {
        'b'
    } else if d == 12 {
        'c'
    } else if d == 13 {
        'd'
    } else if d == 14 {
        'e'
    } else {
        'f'
    }
}

/// The decimal numeral of `n`: its digits from the most significant on,
/// without sign or leading zeros.
pub open spec fn decimal(n: nat) -> Seq<char>
    decreases n,
{
    if n < 10 {
        seq![digit_char(n)]
    } else {
        decimal(n / 10).push(digit_char(n % 10))
    }
}

/// What stands for `c` inside a JSON string: a quotation mark and a
/// backslash each behind a backslash, a control character as `\u00` and
/// its two hexadecimal digits, any other character as itself.
pub open spec fn escaped_char(c: char) -> Seq<char> {
    if c == '"' {
        seq!['\\', '"']
    } else if c == '\\' {
        seq!['\\', '\\']
    } else if (c as u32) < 0x20 {
        seq!['\\', 'u', '0', '0', hex_char((c as u32 / 16) as nat), hex_char((c as u32 % 16) as nat)]
    } else {
        seq![c]
    }
}

/// The content of the JSON string that stands for `text`: what stands for
/// each of its characters, in order.
pub open spec fn escaped(text: Seq<char>) -> Seq<char>
    decreases text.len(),
{
    if text.len() == 0 {
        Seq::empty()
    } else {
        escaped(text.drop_last()) + escaped_char(text.last())
    }
}

/// The hexadecimal digit that `c` stands for, in lower case.
pub open spec fn hex_value(c: char) -> Option<nat> {
    if c == '0' {
        Some(0)
    } else if c == '1' {
        Some(1)
    } else if c == '2' {
        Some(2)
    } else if c == '3' {
        Some(3)
    } else if c == '4' {
        Some(4)
    } else if c == '5' {
        Some(5)
    } else if c == '6' {
        Some(6)
    } else if c == '7' {
        Some(7)
    } else if c == '8' {
        Some(8)
    } else if c == '9' {
        Some(9)
    } else if c == 'a' {
        Some(10)
    } else if c == 'b' {
        Some(11)
    } else if c == 'c' {
        Some(12)
    } else if c == 'd' {
        Some(13)
    } else if c == 'e' {
        Some(14)
    } else if c == 'f' {
        Some(15)
    } else {
        None
    }
}

/// The text that `content` stands for when it is read as the content of
/// a JSON string with the escapes `\"`, `\\` and `\u00` with two digits;
/// `None` where it holds a bare quotation mark or control character, or
/// a backslash that begins none of these escapes.
pub open spec fn unescaped(content: Seq<char>) -> Option<Seq<char>>
    decreases content.len(),
{
    if content.len() == 0 {
        Some(Seq::empty())
    } else if content[0] == '\\' {
        if content.len() >= 2 && (content[1] == '"' || content[1] == '\\') {
            match unescaped(content.skip(2)) {
                Some(rest) => Some(seq![content[1]] + rest),
                None => None,
            }
        } else if content.len() >= 6 && content[1] == 'u' && content[2] == '0' && content[3]
            == '0' && hex_value(content[4]) is Some && hex_value(content[5]) is Some {
            let code = 16 * hex_value(content[4])->0 + hex_value(content[5])->0;
            match unescaped(content.skip(6)) {
                Some(rest) => Some(seq![code as char] + rest),
                None => None,
            }
        } else {
            None
        }
    } else if content[0] == '"' || (content[0] as u32) < 0x20 {
        None
    } else {
        match unescaped(content.skip(1)) {
            Some(rest) => Some(seq![content[0]] + rest),
            None => None,
        }
    }
}

/// Reading goes on behind what has been read: where `head` stands for a
/// text, `head + tail` stands for that text followed by what `tail`
/// stands for.
proof fn lemma_unescaped_concat(head: Seq<char>, tail: Seq<char>)
    requires
        unescaped(head) is Some,
    ensures
        unescaped(head + tail) == match unescaped(tail) {
            Some(rest) => Some(unescaped(head)->0 + rest),
            None => None,
        },
    decreases head.len(),
{
    let whole = head + tail;
    if head.len() == 0 {
        assert(whole =~= tail);
        if unescaped(tail) is Some {
            assert(unescaped(head)->0 + unescaped(tail)->0 =~= unescaped(tail)->0);
        }
    } else {
        let step: int = if head[0] != '\\' {
            1
        } else if head.len() >= 2 && (head[1] == '"' || head[1] == '\\') {
            2
        } else {
            6
        };
        assert(head.len() >= step);
        assert(forall|i: int| 0 <= i < step ==> whole[i] == head[i]);
        assert(whole.skip(step) =~= head.skip(step) + tail);
        lemma_unescaped_concat(head.skip(step), tail);
        if unescaped(tail) is Some {
            let first = unescaped(head)->0.take(1);
            let more = unescaped(head.skip(step))->0;
            assert(unescaped(head)->0 =~= first + more);
            assert(unescaped(whole)->0 =~= first + (more + unescaped(tail)->0));
            assert(unescaped(whole)->0 =~= unescaped(head)->0 + unescaped(tail)->0);
        }
    }
}

/// What stands for one character is read back as that character.
proof fn lemma_unescaped_char(c: char)
    ensures
        unescaped(escaped_char(c)) == Some(seq![c]),
{
    let content = escaped_char(c);
    reveal_with_fuel(unescaped, 2);
    if c == '"' || c == '\\' {
        assert(content.skip(2) =~= Seq::empty());
        assert(seq![c] + Seq::empty() =~= seq![c]);
    } else if (c as u32) < 0x20 {
        let code = c as u32;
        assert(hex_value(hex_char((code / 16) as nat)) == Some((code / 16) as nat));
        assert(hex_value(hex_char((code % 16) as nat)) == Some((code % 16) as nat));
        assert(16 * (code / 16) + code % 16 == code);
        assert((code as nat) as char == c);
        assert(content.skip(6) =~= Seq::empty());
        assert(seq![c] + Seq::empty() =~= seq![c]);
    } else {
        assert(content.skip(1) =~= Seq::empty());
        assert(seq![c] + Seq::empty() =~= seq![c]);
    }
}

/// Escaping loses nothing: the content written for a text is read back
/// as that text.
pub proof fn lemma_escaped_reads_back(text: Seq<char>)
    ensures
        unescaped(escaped(text)) == Some(text),
    decreases text.len(),
{
    if text.len() > 0 {
        lemma_escaped_reads_back(text.drop_last());
        lemma_unescaped_char(text.last());
        lemma_unescaped_concat(escaped(text.drop_last()), escaped_char(text.last()));
        assert(text.drop_last() + seq![text.last()] =~= text);
    }
}

/// Appends `c` to `out` with `String::push`. The contract is that
/// method's documentation and is not proved here: afterwards the string
/// is what it was before, with `c` at its end.
#[verifier::external_body]
fn push_char(out: &mut String, c: char)
    ensures
        final(out)@ == old(out)@.push(c),
{
    out.push(c);
}

/// The character for the digit `d`; below ten it is the decimal digit.
fn hex_digit(d: u32) -> (c: char)
    requires
        d < 16,
    ensures
        c == hex_char(d as nat),
{
    if d == 0 {
        '0'
    } else if d == 1 {
        '1'
    } else if d == 2 {
        '2'
    } else if d == 3 {
        '3'
    } else if d == 4 {
        '4'
    } else if d == 5 {
        '5'
    } else if d == 6 {
        '6'
    } else if d == 7 {
        '7'
    } else if d == 8 {
        '8'
    } else if d == 9 {
        '9'
    } else if d == 10 {
        'a'
    } else if d == 11 {
        'b'
    } else if d == 12 {
        'c'
    } else if d == 13 {
        'd'
    } else if d == 14 {
        'e'
    } else {
        'f'
    }
}

/// Appends the decimal numeral of `n` to `out`.
pub fn push_decimal(out: &mut String, n: u128)
    ensures
        final(out)@ == old(out)@ + decimal(n as nat),
    decreases n,
{
    if n >= 10 {
        push_decimal(out, n / 10);
    }
    let last: u32 = (n % 10) as u32;
    push_char(out, hex_digit(last));
    assert(out@ == old(out)@ + decimal(n as nat));
}

/// Appends to `out` what stands for `text` inside a JSON string.
pub fn push_escaped(out: &mut String, text: &str)
    ensures
        final(out)@ == old(out)@ + escaped(text@),
{
    let ghost before = out@;
    assert(out@ == before + escaped(text@.take(0)));
    for c in rest: text.chars()
        invariant
            rest.seq() == text@,
            out@ == before + escaped(text@.take(rest.index() as int)),
    {
        proof {
            let done = rest.index() as int;
            assert(text@.take(done + 1).drop_last() == text@.take(done));
            assert(text@.take(done + 1).last() == c);
            assert(escaped(text@.take(done + 1)) == escaped(text@.take(done)) + escaped_char(c));
        }
        let ghost so_far = out@;
        if c == '"' {
            push_char(out, '\\');
            push_char(out, '"');
        } else if c == '\\' {
            push_char(out, '\\');
            push_char(out, '\\');
        } else if (c as u32) < 0x20 {
            let code: u32 = c as u32;
            push_char(out, '\\');
            push_char(out, 'u');
            push_char(out, '0');
            push_char(out, '0');
            push_char(out, hex_digit(code / 16));
            push_char(out, hex_digit(code % 16));
        } else {
            push_char(out, c);
        }
        assert(out@ == so_far + escaped_char(c));
    }
    assert(text@.take(text@.len() as int) == text@);
}

} // verus!
