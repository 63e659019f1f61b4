//! Text helpers: comparing and splitting strings, writing numbers, quoting.

use vstd::prelude::*;
use vstd::std_specs::iter::IteratorSpec;

verus! {

use crate::sequences::lemma_filter_push;

/// Whether two strings hold the same characters.
pub fn str_eq(a: &str, b: &str) -> (r: bool)
    ensures
        r == (a@ == b@),
{
    let n: usize = a.unicode_len();
    if b.unicode_len() != n {
        return false;
    }
    let mut left = a.chars();
    let mut right = b.chars();
    let mut count: usize = 0;
    while count < n
        invariant
            count <= n,
            n == a@.len(),
            n == b@.len(),
            left.obeys_prophetic_iter_laws(),
            right.obeys_prophetic_iter_laws(),
            left.remaining() == a@.skip(count as int),
            right.remaining() == b@.skip(count as int),
            forall|i: int| 0 <= i < count ==> a@[i] == b@[i],
        decreases n - count,
    {
        match (left.next(), right.next()) {
            (Some(p), Some(q)) => {
                if p != q {
                    return false;
                }
            },
            _ => {
                return false;
            },
        }
        count += 1;
    }
    assert(a@ =~= b@);
    true
}

/// The character for a digit below sixteen (lower case past nine).
pub open spec fn digit_char(d: nat) -> char {
    if d < 10 {
        (48 + d) as char
    } else {
        (87 + d) as char
    }
}

/// A number in decimal, without leading zeros.
pub open spec fn decimal_text(n: nat) -> Seq<char>
    decreases n,
{
    if n < 10 {
        seq![digit_char(n)]
    } else {
        decimal_text(n / 10) + seq![digit_char(n % 10)]
    }
}

/// A 16-bit number as `0x` and four hexadecimal digits.
pub open spec fn hex_text(n: nat) -> Seq<char> {
    "0x"@ + seq![digit_char(n / 4096 % 16)] + seq![digit_char(n / 256 % 16)] + seq![
        digit_char(n / 16 % 16),
    ] + seq![digit_char(n % 16)]
}

/// The one-character string for a digit below sixteen.
fn digit_str(d: u64) -> (r: &'static str)
    requires
        d < 16,
    ensures
        r@ == seq![digit_char(d as nat)],
{
    if d == 0 {
        proof {
            reveal_strlit("0");
        }
        "0"
    } else if d == 1 {
        proof {
            reveal_strlit("1");
        }
        "1"
    } else if d == 2 {
        proof {
            reveal_strlit("2");
        }
        "2"
    } else if d == 3 {
        proof {
            reveal_strlit("3");
        }
        "3"
    } else if d == 4 {
        proof {
            reveal_strlit("4");
        }
        "4"
    } else if d == 5 {
        proof {
            reveal_strlit("5");
        }
        "5"
    } else if d == 6 {
        proof {
            reveal_strlit("6");
        }
        "6"
    } else if d == 7 {
        proof {
            reveal_strlit("7");
        }
        "7"
    } else if d == 8 {
        proof {
            reveal_strlit("8");
        }
        "8"
    } else if d == 9 {
        proof {
            reveal_strlit("9");
        }
        "9"
    } else if d == 10 {
        proof {
            reveal_strlit("a");
        }
        "a"
    } else if d == 11 {
        proof {
            reveal_strlit("b");
        }
        "b"
    } else if d == 12 {
        proof {
            reveal_strlit("c");
        }
        "c"
    } else if d == 13 {
        proof {
            reveal_strlit("d");
        }
        "d"
    } else if d == 14 {
        proof {
            reveal_strlit("e");
        }
        "e"
    } else {
        proof {
            reveal_strlit("f");
        }
        "f"
    }
}

/// Write a number in decimal.
pub fn decimal(n: u64) -> (r: String)
    ensures
        r@ == decimal_text(n as nat),
    decreases n,
{
    if n < 10 {
        digit_str(n).to_owned()
    } else {
        let mut r = decimal(n / 10);
        r.append(digit_str(n % 10));
        r
    }
}

/// Write a 16-bit number as `0x` and four hexadecimal digits.
pub fn hex(n: u16) -> (r: String)
    ensures
        r@ == hex_text(n as nat),
{
    let n: u64 = n as u64;
    let mut r = "0x".to_owned();
    r.append(digit_str(n / 4096 % 16));
    r.append(digit_str(n / 256 % 16));
    r.append(digit_str(n / 16 % 16));
    r.append(digit_str(n % 16));
    r
}

/// A string in quotes with its special characters escaped, as `{:?}` writes it.
pub uninterp spec fn debug_text(s: Seq<char>) -> Seq<char>;

/// `format!` with `{:?}` on a string. The contract says that the text depends on
/// the characters of the string alone; which characters are escaped, and how, is
/// left unsaid.
#[verifier::external_body]
pub(crate) fn debug(s: &str) -> (r: String)
    ensures
        r@ == debug_text(s@),
{
    format!("{:?}", s)
}

/// The parts of a text between its dots, in order: one more than it has dots.
pub open spec fn split_dots(s: Seq<char>) -> Seq<Seq<char>>
    decreases s.len(),
{
    if s.len() == 0 {
        seq![Seq::<char>::empty()]
    } else if s.last() == '.' {
        split_dots(s.drop_last()).push(Seq::<char>::empty())
    } else {
        let parts = split_dots(s.drop_last());
        parts.drop_last().push(parts.last().push(s.last()))
    }
}

/// The non-empty parts of a text between its dots.
pub open spec fn dotted_steps(s: Seq<char>) -> Seq<Seq<char>> {
    split_dots(s).filter(|part: Seq<char>| part.len() > 0)
}

/// Split a text at its dots, leaving empty parts out.
pub fn split_steps(s: &str) -> (r: Vec<String>)
    ensures
        r@.map_values(|part: String| part@) == dotted_steps(s@),
{
    let ghost keep = |part: Seq<char>| part.len() > 0;
    let ghost text = |part: String| part@;
    let ghost mut done: Seq<Seq<char>> = Seq::empty();
    let mut out: Vec<String> = Vec::new();
    let n: usize = s.unicode_len();
    let mut start: usize = 0;
    let mut i: usize = 0;
    proof {
        reveal(Seq::filter);
        assert(out@.map_values(text) =~= done.filter(keep));
        assert(s@.take(0) =~= Seq::<char>::empty());
        assert(s@.subrange(0, 0) =~= Seq::<char>::empty());
    }
    while i < n
        invariant
            n == s@.len(),
            start <= i <= n,
            keep == (|part: Seq<char>| part.len() > 0),
            text == (|part: String| part@),
            split_dots(s@.take(i as int)) == done.push(s@.subrange(start as int, i as int)),
            out@.map_values(text) == done.filter(keep),
        decreases n - i,
    {
        let c = s.get_char(i);
        let ghost part = s@.subrange(start as int, i as int);
        proof {
            assert(s@.take(i + 1).drop_last() =~= s@.take(i as int));
            assert(done.push(part).drop_last() =~= done);
        }
        if c == '.' {
            if start < i {
                let ghost before = out@;
                out.push(s.substring_char(start, i).to_owned());
                assert(out@.map_values(text) =~= before.map_values(text).push(part));
            }
            proof {
                lemma_filter_push(done, keep, part);
                done = done.push(part);
                assert(s@.subrange(i + 1, i + 1) =~= Seq::<char>::empty());
            }
            start = i + 1;
        } else {
            assert(s@.subrange(start as int, i + 1) =~= part.push(c));
        }
        i += 1;
    }
    let ghost part = s@.subrange(start as int, n as int);
    if start < n {
        let ghost before = out@;
        out.push(s.substring_char(start, n).to_owned());
        assert(out@.map_values(text) =~= before.map_values(text).push(part));
    }
    proof {
        lemma_filter_push(done, keep, part);
        assert(s@.take(n as int) =~= s@);
    }
    out
}

/// Whether a `::` stands at position `i`.
pub open spec fn colons_at(s: Seq<char>, i: int) -> bool {
    0 <= i && i + 1 < s.len() && s[i] == ':' && s[i + 1] == ':'
}

/// Whether the last `::` stands at position `i`.
pub open spec fn last_colons_at(s: Seq<char>, i: int) -> bool {
    colons_at(s, i) && forall|j: int| i < j ==> !#[trigger] colons_at(s, j)
}

/// The text after the last `::`, or all of it.
pub open spec fn after_colons(s: Seq<char>) -> Seq<char> {
    if exists|i: int| last_colons_at(s, i) {
        s.skip((choose|i: int| last_colons_at(s, i)) + 2)
    } else {
        s
    }
}

/// The text after the last `::`, or all of it.
pub fn tail_after_colons(s: &str) -> (r: &str)
    ensures
        r@ == after_colons(s@),
{
    let n: usize = s.unicode_len();
    let mut end: usize = n;
    while end >= 2
        invariant
            n == s@.len(),
            end <= n,
            forall|j: int| end - 1 <= j ==> !#[trigger] colons_at(s@, j),
        decreases end,
    {
        if s.get_char(end - 2) == ':' && s.get_char(end - 1) == ':' {
            proof {
                let i = end - 2;
                assert(last_colons_at(s@, i));
                let k = choose|k: int| last_colons_at(s@, k);
                assert(colons_at(s@, k) && colons_at(s@, i));
                assert(k == i);
                assert(s@.skip(i + 2) =~= s@.subrange(end as int, n as int));
            }
            return s.substring_char(end, n);
        }
        end -= 1;
    }
    s
}

/// The number a text of decimal digits stands for.
pub open spec fn decimal_value(s: Seq<char>) -> int
    decreases s.len(),
{
    if s.len() == 0 {
        0
    } else {
        decimal_value(s.drop_last()) * 10 + (s.last() as int - '0' as int)
    }
}

/// A number in decimal reads back as the number; it has only digits, and no leading zero.
pub proof fn law_decimal_reads_back(n: nat)
    ensures
        decimal_value(decimal_text(n)) == n,
        decimal_text(n).len() > 0,
        decimal_text(n).len() > 1 ==> decimal_text(n)[0] != '0',
        forall|i: int|
            0 <= i < decimal_text(n).len() ==> '0' <= #[trigger] decimal_text(n)[i] && decimal_text(
                n,
            )[i] <= '9',
    decreases n,
{
    let s = decimal_text(n);
    reveal_with_fuel(decimal_value, 2);
    if n >= 10 {
        law_decimal_reads_back(n / 10);
        let front = decimal_text(n / 10);
        assert(s.drop_last() =~= front);
        assert forall|i: int| 0 <= i < s.len() implies '0' <= #[trigger] s[i] && s[i] <= '9' by {
            if i < front.len() {
                assert(s[i] == front[i]);
            }
        }
        assert(s[0] == front[0]);
        if front.len() == 1 {
            assert(front.drop_last() =~= Seq::<char>::empty());
            assert(decimal_value(front) == front[0] as int - '0' as int);
        }
    } else {
        assert(s.drop_last() =~= Seq::<char>::empty());
    }
}

/// The value of a hexadecimal digit in lower case.
pub open spec fn hex_value(c: char) -> int {
    if c <= '9' {
        c as int - '0' as int
    } else {
        c as int - 'a' as int + 10
    }
}

/// A 16-bit number in hexadecimal is `0x` and four digits, from `0` to `9` and `a` to `f`, that read
/// back as the number.
pub proof fn law_hex_reads_back(n: u16)
    ensures
        ({
            let s = hex_text(n as nat);
            &&& s.len() == 6
            &&& s[0] == '0' && s[1] == 'x'
            &&& forall|i: int|
                2 <= i < 6 ==> ('0' <= #[trigger] s[i] && s[i] <= '9') || ('a' <= s[i] && s[i]
                    <= 'f')
            &&& n == hex_value(s[2]) * 4096 + hex_value(s[3]) * 256 + hex_value(s[4]) * 16
                + hex_value(s[5])
        }),
{
    reveal_strlit("0x");
    let s = hex_text(n as nat);
    let k = n as nat;
    assert(s[2] == digit_char(k / 4096 % 16));
    assert(s[3] == digit_char(k / 256 % 16));
    assert(s[4] == digit_char(k / 16 % 16));
    assert(s[5] == digit_char(k % 16));
    lemma_hex_digit(k / 4096 % 16);
    lemma_hex_digit(k / 256 % 16);
    lemma_hex_digit(k / 16 % 16);
    lemma_hex_digit(k % 16);
    assert(k / 4096 % 16 == k / 4096);
}

proof fn lemma_hex_digit(d: nat)
    requires
        d < 16,
    ensures
        hex_value(digit_char(d)) == d,
        ('0' <= digit_char(d) && digit_char(d) <= '9') || ('a' <= digit_char(d) && digit_char(d)
            <= 'f'),
{
}

/// Whether a text holds `::`.
pub open spec fn has_colons(s: Seq<char>) -> bool {
    exists|i: int| 0 <= i && i + 1 < s.len() && #[trigger] s[i] == ':' && s[i + 1] == ':'
}

/// A text without `::` is itself. What stands behind a `::`, with none in it and none that starts
/// at the second colon, is what comes after the last.
pub proof fn law_key_after_colons(before: Seq<char>, key: Seq<char>)
    ensures
        !has_colons(key) ==> after_colons(key) == key,
        !has_colons(seq![':'] + key) ==> after_colons(before + seq![':', ':'] + key) == key,
{
    if !has_colons(key) {
        assert forall|i: int| !#[trigger] colons_at(key, i) by {
            if colons_at(key, i) {
                assert(key[i] == ':');
            }
        }
    }
    let tail = seq![':'] + key;
    if !has_colons(tail) {
        let s = before + seq![':', ':'] + key;
        let at = before.len() as int;
        assert(colons_at(s, at));
        assert forall|j: int| at < j implies !#[trigger] colons_at(s, j) by {
            if colons_at(s, j) {
                let k = j - at - 1;
                assert(s[j] == tail[k] && s[j + 1] == tail[k + 1]);
            }
        }
        assert(last_colons_at(s, at));
        let k = choose|k: int| last_colons_at(s, k);
        assert(colons_at(s, k) && colons_at(s, at));
        assert(s.skip(at + 2) =~= key);
    }
}

} // verus!
