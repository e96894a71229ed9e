//! Command arguments: lists of bytes written in hexadecimal, and the
//! values that two settings accept.

use vstd::prelude::*;
use vstd::string::*;

verus! {

/// The value of a hexadecimal digit, in either case.
pub open spec fn digit_value(c: char) -> Option<int> {
    if '0' <= c <= '9' {
        Some(c as int - '0' as int)
    } else if 'a' <= c <= 'f' {
        Some(c as int - 'a' as int + 10)
    } else if 'A' <= c <= 'F' {
        Some(c as int - 'A' as int + 10)
    } else {
        None
    }
}

/// The number that a run of hexadecimal digits writes, however long;
/// `None` where a character is no digit. The empty run writes zero.
pub open spec fn digits_value(s: Seq<char>) -> Option<int>
    decreases s.len(),
{
    if s.len() == 0 {
        Some(0)
    } else {
        match (digits_value(s.drop_last()), digit_value(s.last())) {
            (Some(high), Some(low)) => Some(high * 16 + low),
            _ => None,
        }
    }
}

/// The digits of a number: the text without one leading plus sign.
pub open spec fn unsigned_part(s: Seq<char>) -> Seq<char> {
    if s.len() > 0 && s[0] == '+' {
        s.drop_first()
    } else {
        s
    }
}

/// The byte that a text writes in hexadecimal: an optional plus sign, then
/// at least one digit, the number no more than 255.
pub open spec fn hex_u8(s: Seq<char>) -> Option<u8> {
    let body = unsigned_part(s);
    if body.len() == 0 {
        None
    } else {
        match digits_value(body) {
            Some(v) => if v <= 255 {
                Some(v as u8)
            } else {
                None
            },
            None => None,
        }
    }
}

/// The pieces of a text between its colons. A colon ends a piece and
/// starts the next; a text without colons is one piece.
pub open spec fn pieces(s: Seq<char>) -> Seq<Seq<char>>
    decreases s.len(),
{
    if s.len() == 0 {
        seq![Seq::empty()]
    } else {
        let before = pieces(s.drop_last());
        if s.last() == ':' {
            before.push(Seq::empty())
        } else {
            before.drop_last().push(before.last().push(s.last()))
        }
    }
}

/// The bytes that a list of pieces writes, where each piece writes one.
pub open spec fn bytes_of(parts: Seq<Seq<char>>) -> Option<Seq<u8>>
    decreases parts.len(),
{
    if parts.len() == 0 {
        Some(Seq::empty())
    } else {
        match (bytes_of(parts.drop_last()), hex_u8(parts.last())) {
            (Some(front), Some(b)) => Some(front.push(b)),
            _ => None,
        }
    }
}

/// The bytes that a colon-separated text writes, e.g. `0a:ff:7`.
pub open spec fn hex_list(s: Seq<char>) -> Option<Seq<u8>> {
    bytes_of(pieces(s))
}

/// The value of one hexadecimal digit.
fn digit_of(c: char) -> (d: Option<u8>)
    ensures
        match d {
            Some(v) => digit_value(c) == Some(v as int) && v < 16,
            None => digit_value(c) is None,
        },
{
    if '0' <= c && c <= '9' {
        Some((c as u32 - '0' as u32) as u8)
    } else if 'a' <= c && c <= 'f' {
        Some((c as u32 - 'a' as u32 + 10) as u8)
    } else if 'A' <= c && c <= 'F' {
        Some((c as u32 - 'A' as u32 + 10) as u8)
    } else {
        None
    }
}

/// Digits in front only make a number larger.
proof fn lemma_digits_value_grows(s: Seq<char>, n: int)
    requires
        0 <= n <= s.len(),
        digits_value(s) is Some,
    ensures
        digits_value(s.take(n)) is Some,
        0 <= digits_value(s.take(n))->0 <= digits_value(s)->0,
    decreases s.len() - n,
{
    if n == s.len() {
        assert(s.take(n) =~= s);
        lemma_digits_value_nonnegative(s);
    } else {
        assert(s.drop_last().take(n) =~= s.take(n));
        lemma_digits_value_grows(s.drop_last(), n);
    }
}

/// A run of digits writes no negative number.
proof fn lemma_digits_value_nonnegative(s: Seq<char>)
    requires
        digits_value(s) is Some,
    ensures
        digits_value(s)->0 >= 0,
    decreases s.len(),
{
    if s.len() > 0 {
        lemma_digits_value_nonnegative(s.drop_last());
    }
}

/// A run with a character that is no digit writes no number.
proof fn lemma_digits_value_bad_prefix(s: Seq<char>, n: int)
    requires
        0 <= n <= s.len(),
        digits_value(s.take(n)) is None,
    ensures
        digits_value(s) is None,
    decreases s.len() - n,
{
    if n == s.len() {
        assert(s.take(n) =~= s);
    } else {
        assert(s.drop_last().take(n) =~= s.take(n));
        lemma_digits_value_bad_prefix(s.drop_last(), n);
    }
}

/// Reads one byte written in hexadecimal.
pub fn parse_hex_u8(piece: &Vec<char>) -> (b: Option<u8>)
    ensures
        b == hex_u8(piece@),
{
    let start: usize = if piece.len() > 0 && piece[0] == '+' { 1 } else { 0 };
    let ghost body = unsigned_part(piece@);
    assert(body =~= piece@.skip(start as int));
    if start == piece.len() {
        return None;
    }
    let mut acc: u8 = 0;
    let mut i: usize = start;
    assert(body.take(0) =~= Seq::<char>::empty());
    while i < piece.len()
        invariant
            start <= i <= piece.len(),
            start < piece.len(),
            body == piece@.skip(start as int),
            body == unsigned_part(piece@),
            digits_value(body.take(i - start)) == Some(acc as int),
        decreases piece.len() - i,
    {
        let ghost next = body.take(i - start + 1);
        proof {
            assert(next.drop_last() =~= body.take(i - start));
            assert(next.last() == piece@[i as int]);
        }
        match digit_of(piece[i]) {
            Some(d) => {
                if acc > 15 {
                    proof {
                        assert(digits_value(next) == Some(acc * 16 + d));
                        if digits_value(body) is Some {
                            lemma_digits_value_grows(body, i - start + 1);
                        }
                    }
                    return None;
                }
                acc = acc * 16 + d;
            },
            None => {
                proof {
                    lemma_digits_value_bad_prefix(body, i - start + 1);
                }
                return None;
            },
        }
        i += 1;
    }
    assert(body.take(i - start) =~= body);
    Some(acc)
}

/// Cuts a text at its colons.
pub fn split_colon(text: &str) -> (parts: Vec<Vec<char>>)
    ensures
        parts@.len() == pieces(text@).len(),
        forall|k: int| 0 <= k < parts@.len() ==> (#[trigger] parts@[k])@ == pieces(text@)[k],
{
    let n = text.unicode_len();
    let mut parts: Vec<Vec<char>> = Vec::new();
    let mut current: Vec<char> = Vec::new();
    let mut i: usize = 0;
    assert(text@.take(0) =~= Seq::<char>::empty());
    while i < n
        invariant
            i <= n,
            n == text@.len(),
            parts@.len() + 1 == pieces(text@.take(i as int)).len(),
            forall|k: int|
                0 <= k < parts@.len() ==> (#[trigger] parts@[k])@ == pieces(text@.take(i as int))[k],
            current@ == pieces(text@.take(i as int)).last(),
        decreases n - i,
    {
        let ghost before = pieces(text@.take(i as int));
        let ghost next = text@.take(i + 1);
        proof {
            assert(next.drop_last() =~= text@.take(i as int));
            assert(next.last() == text@[i as int]);
        }
        let c = text.get_char(i);
        if c == ':' {
            parts.push(current);
            current = Vec::new();
        } else {
            current.push(c);
        }
        i += 1;
    }
    assert(text@.take(i as int) =~= text@);
    parts.push(current);
    parts
}

/// Reads a list of bytes written in hexadecimal with colons between them.
/// `None` where a piece between two colons is not a byte: empty, with a
/// character that is no digit, or above `ff`.
pub fn parse_hex_bytes(text: &str) -> (bytes: Option<Vec<u8>>)
    ensures
        match bytes {
            Some(v) => hex_list(text@) == Some(v@),
            None => hex_list(text@) is None,
        },
{
    let parts = split_colon(text);
    let ghost all = pieces(text@);
    let mut out: Vec<u8> = Vec::new();
    let mut i: usize = 0;
    assert(all.take(0) =~= Seq::<Seq<char>>::empty());
    while i < parts.len()
        invariant
            i <= parts.len(),
            all == pieces(text@),
            parts@.len() == all.len(),
            forall|k: int| 0 <= k < parts@.len() ==> (#[trigger] parts@[k])@ == all[k],
            bytes_of(all.take(i as int)) == Some(out@),
        decreases parts.len() - i,
    {
        let ghost next = all.take(i + 1);
        proof {
            assert(next.drop_last() =~= all.take(i as int));
            assert(next.last() == parts@[i as int]@);
        }
        match parse_hex_u8(&parts[i]) {
            Some(b) => {
                out.push(b);
            },
            None => {
                proof {
                    lemma_bytes_of_bad_prefix(all, i + 1);
                }
                return None;
            },
        }
        i += 1;
    }
    assert(all.take(i as int) =~= all);
    Some(out)
}

/// A list with a piece that is no byte writes no bytes.
proof fn lemma_bytes_of_bad_prefix(parts: Seq<Seq<char>>, n: int)
    requires
        0 <= n <= parts.len(),
        bytes_of(parts.take(n)) is None,
    ensures
        bytes_of(parts) is None,
    decreases parts.len() - n,
{
    if n == parts.len() {
        assert(parts.take(n) =~= parts);
    } else {
        assert(parts.drop_last().take(n) =~= parts.take(n));
        lemma_bytes_of_bad_prefix(parts.drop_last(), n);
    }
}

/// The network sizes that the border router accepts.
pub open spec fn valid_pan_size(size: u16) -> bool {
    size == 0 || size == 1 || size == 8 || size == 15 || size == 25 || size == 255
}

/// Whether `size` is one of the network sizes that can be set.
pub fn is_valid_pan_size(size: u16) -> (ok: bool)
    ensures
        ok == valid_pan_size(size),
{
    size == 0 || size == 1 || size == 8 || size == 15 || size == 25 || size == 255
}

/// Whether `index` names one of the four group keys.
pub fn is_valid_gtk_index(index: u8) -> (ok: bool)
    ensures
        ok == (index <= 3),
{
    index <= 3
}

} // verus!
