//! Taking text apart: trimming, splitting, and reading numerals.
use crate::text::{chars_of, push_text, text_of_chars, views};
use vstd::prelude::*;

verus! {

/// The characters with the Unicode property `White_Space`.
pub open spec fn white_space(c: char) -> bool {
    let n = c as u32;
    ||| 0x9 <= n <= 0xd
    ||| n == 0x20
    ||| n == 0x85
    ||| n == 0xa0
    ||| n == 0x1680
    ||| 0x2000 <= n <= 0x200a
    ||| n == 0x2028
    ||| n == 0x2029
    ||| n == 0x202f
    ||| n == 0x205f
    ||| n == 0x3000
}

fn is_white_space(c: char) -> (r: bool)
    ensures
        r == white_space(c),
{
    let n: u32 = c as u32;
    (0x9 <= n && n <= 0xd) || n == 0x20 || n == 0x85 || n == 0xa0 || n == 0x1680 || (0x2000 <= n
        && n <= 0x200a) || n == 0x2028 || n == 0x2029 || n == 0x202f || n == 0x205f || n == 0x3000
}

/// What trimming takes off: white space, or one character.
pub enum Class {
    White,
    Only(char),
}

pub open spec fn in_class(k: Class, c: char) -> bool {
    match k {
        Class::White => white_space(c),
        Class::Only(x) => c == x,
    }
}

fn is_in_class(k: &Class, c: char) -> (r: bool)
    ensures
        r == in_class(*k, c),
{
    match k {
        Class::White => is_white_space(c),
        Class::Only(x) => c == *x,
    }
}

/// `s` from its first character outside the class on.
pub open spec fn drop_leading(s: Seq<char>, k: Class) -> Seq<char>
    decreases s.len(),
{
    if s.len() > 0 && in_class(k, s[0]) {
        drop_leading(s.drop_first(), k)
    } else {
        s
    }
}

/// `s` up to its last character outside the class.
pub open spec fn drop_trailing(s: Seq<char>, k: Class) -> Seq<char>
    decreases s.len(),
{
    if s.len() > 0 && in_class(k, s.last()) {
        drop_trailing(s.drop_last(), k)
    } else {
        s
    }
}

pub open spec fn trimmed(s: Seq<char>) -> Seq<char> {
    drop_trailing(drop_leading(s, Class::White), Class::White)
}

pub fn without_leading(s: &str, k: Class) -> (r: String)
    ensures
        r@ == drop_leading(s@, k),
{
    let v = chars_of(s);
    let mut i: usize = 0;
    proof {
        assert(v@.skip(0) =~= v@);
    }
    while i < v.len() && is_in_class(&k, v[i])
        invariant
            i <= v@.len(),
            drop_leading(v@.skip(i as int), k) == drop_leading(v@, k),
        decreases v@.len() - i,
    {
        proof {
            assert(v@.skip(i as int)[0] == v@[i as int]);
            assert(v@.skip(i as int).drop_first() =~= v@.skip(i + 1));
        }
        i += 1;
    }
    proof {
        assert(i < v@.len() ==> v@.skip(i as int)[0] == v@[i as int]);
        assert(v@.subrange(i as int, v@.len() as int) =~= v@.skip(i as int));
    }
    text_of_chars(&v, i, v.len())
}

pub fn without_trailing(s: &str, k: Class) -> (r: String)
    ensures
        r@ == drop_trailing(s@, k),
{
    let v = chars_of(s);
    let mut i: usize = v.len();
    proof {
        assert(v@.take(v@.len() as int) =~= v@);
    }
    while i > 0 && is_in_class(&k, v[i - 1])
        invariant
            i <= v@.len(),
            drop_trailing(v@.take(i as int), k) == drop_trailing(v@, k),
        decreases i,
    {
        proof {
            assert(v@.take(i as int).last() == v@[i - 1]);
            assert(v@.take(i as int).drop_last() =~= v@.take(i - 1));
        }
        i -= 1;
    }
    proof {
        assert(i > 0 ==> v@.take(i as int).last() == v@[i - 1]);
        assert(v@.subrange(0, i as int) =~= v@.take(i as int));
    }
    text_of_chars(&v, 0, i)
}

pub fn trim(s: &str) -> (r: String)
    ensures
        r@ == trimmed(s@),
{
    let t = without_leading(s, Class::White);
    without_trailing(t.as_str(), Class::White)
}

/// `s` cut at every `sep`.
pub open spec fn pieces(s: Seq<char>, sep: char) -> Seq<Seq<char>>
    decreases s.len(),
{
    if s.len() == 0 {
        seq![Seq::empty()]
    } else {
        let before = pieces(s.drop_last(), sep);
        if s.last() == sep {
            before.push(Seq::empty())
        } else {
            before.drop_last().push(before.last().push(s.last()))
        }
    }
}

proof fn lemma_pieces_some(s: Seq<char>, sep: char)
    ensures
        pieces(s, sep).len() >= 1,
    decreases s.len(),
{
    if s.len() > 0 {
        lemma_pieces_some(s.drop_last(), sep);
    }
}

pub fn split(s: &str, sep: char) -> (r: Vec<String>)
    ensures
        views(r@) == pieces(s@, sep),
        r@.len() >= 1,
{
    let v = chars_of(s);
    let mut out: Vec<String> = Vec::new();
    let mut from: usize = 0;
    let mut i: usize = 0;
    proof {
        assert(views(out@).push(v@.subrange(0, 0)) =~= pieces(v@.take(0), sep)) by {
            assert(v@.subrange(0, 0) =~= Seq::<char>::empty());
        }
    }
    while i < v.len()
        invariant
            from <= i <= v@.len(),
            views(out@).push(v@.subrange(from as int, i as int)) == pieces(v@.take(i as int), sep),
        decreases v@.len() - i,
    {
        proof {
            let t = v@.take(i + 1);
            assert(t.drop_last() =~= v@.take(i as int));
            assert(t.last() == v@[i as int]);
            let before = pieces(v@.take(i as int), sep);
            assert(before.drop_last() =~= views(out@));
            assert(v@.subrange(i + 1, i + 1) =~= Seq::<char>::empty());
            assert(v@.subrange(from as int, i + 1) =~= v@.subrange(from as int, i as int).push(
                v@[i as int],
            ));
        }
        if v[i] == sep {
            push_text(&mut out, text_of_chars(&v, from, i));
            from = i + 1;
        }
        i += 1;
    }
    push_text(&mut out, text_of_chars(&v, from, v.len()));
    proof {
        assert(v@.take(v@.len() as int) =~= v@);
        lemma_pieces_some(v@, sep);
        assert(views(out@).len() == out@.len());
    }
    out
}

/// `s` up to its first `sep`.
pub open spec fn head(s: Seq<char>, sep: char) -> Seq<char> {
    pieces(s, sep)[0]
}

pub fn first_piece(s: &str, sep: char) -> (r: String)
    ensures
        r@ == head(s@, sep),
{
    let all = split(s, sep);
    proof {
        assert(views(all@)[0] == all@[0]@);
    }
    all[0].clone()
}

/// The place of the first `c` in `s` from `from` on, or the length of `s`.
pub open spec fn place(s: Seq<char>, c: char, from: int) -> int
    decreases s.len() - from,
{
    if from < 0 || from >= s.len() {
        s.len() as int
    } else if s[from] == c {
        from
    } else {
        place(s, c, from + 1)
    }
}

/// What stands before and after the first `c`.
pub open spec fn cut(s: Seq<char>, c: char) -> Option<(Seq<char>, Seq<char>)> {
    let i = place(s, c, 0);
    if i < s.len() {
        Some((s.take(i), s.skip(i + 1)))
    } else {
        None
    }
}

pub fn split_once(s: &str, c: char) -> (r: Option<(String, String)>)
    ensures
        match r {
            Some((a, b)) => cut(s@, c) == Some((a@, b@)),
            None => cut(s@, c) is None,
        },
{
    let v = chars_of(s);
    let mut i: usize = 0;
    while i < v.len()
        invariant
            i <= v@.len(),
            place(v@, c, 0) == place(v@, c, i as int),
            v@ == s@,
        decreases v@.len() - i,
    {
        if v[i] == c {
            let a = text_of_chars(&v, 0, i);
            let b = text_of_chars(&v, i + 1, v.len());
            proof {
                assert(v@.subrange(0, i as int) =~= v@.take(i as int));
                assert(v@.subrange(i + 1, v@.len() as int) =~= v@.skip(i + 1));
            }
            return Some((a, b));
        }
        i += 1;
    }
    None
}

/// The place of the first arrow `->` in `s` from `from` on, or the length of `s`.
pub open spec fn arrow(s: Seq<char>, from: int) -> int
    decreases s.len() - from,
{
    if from < 0 || from + 1 >= s.len() {
        s.len() as int
    } else if s[from] == '-' && s[from + 1] == '>' {
        from
    } else {
        arrow(s, from + 1)
    }
}

proof fn lemma_arrow_bounds(s: Seq<char>, from: int)
    requires
        0 <= from <= s.len(),
    ensures
        from <= arrow(s, from) <= s.len(),
        arrow(s, from) < s.len() ==> arrow(s, from) + 2 <= s.len(),
    decreases s.len() - from,
{
    if from + 1 < s.len() && !(s[from] == '-' && s[from + 1] == '>') {
        lemma_arrow_bounds(s, from + 1);
    }
}

/// What stands between the first arrow and the next one, or the end.
pub open spec fn past_arrow(s: Seq<char>) -> Option<Seq<char>> {
    let i = arrow(s, 0);
    if i < s.len() {
        Some(s.subrange(i + 2, arrow(s, i + 2)))
    } else {
        None
    }
}

fn find_arrow(v: &Vec<char>, from: usize) -> (r: usize)
    requires
        from <= v@.len(),
    ensures
        r == arrow(v@, from as int),
{
    let mut i: usize = from;
    while i < v.len() && i + 1 < v.len()
        invariant
            from <= i <= v@.len(),
            arrow(v@, from as int) == arrow(v@, i as int),
        decreases v@.len() - i,
    {
        if v[i] == '-' && v[i + 1] == '>' {
            return i;
        }
        i += 1;
    }
    v.len()
}

pub fn after_arrow(s: &str) -> (r: Option<String>)
    ensures
        match r {
            Some(t) => past_arrow(s@) == Some(t@),
            None => past_arrow(s@) is None,
        },
{
    let v = chars_of(s);
    let i = find_arrow(&v, 0);
    proof {
        lemma_arrow_bounds(v@, 0);
    }
    if i < v.len() {
        proof {
            lemma_arrow_bounds(v@, i + 2);
        }
        let j = find_arrow(&v, i + 2);
        Some(text_of_chars(&v, i + 2, j))
    } else {
        None
    }
}

/// What stands between `open` at the start and `close` at the end; nothing, where `s` does not
/// start and end so.
pub open spec fn inside(s: Seq<char>, open: char, close: char) -> Seq<char> {
    if s.len() >= 2 && s[0] == open && s.last() == close {
        s.subrange(1, s.len() - 1)
    } else {
        Seq::empty()
    }
}

pub fn strip(s: &str, open: char, close: char) -> (r: String)
    ensures
        r@ == inside(s@, open, close),
{
    let v = chars_of(s);
    if v.len() >= 2 && v[0] == open && v[v.len() - 1] == close {
        text_of_chars(&v, 1, v.len() - 1)
    } else {
        String::new()
    }
}

/// How many brackets are open after `s`.
pub open spec fn depth(s: Seq<char>) -> int
    decreases s.len(),
{
    if s.len() == 0 {
        0
    } else if s.last() == '(' || s.last() == '[' {
        depth(s.drop_last()) + 1
    } else if s.last() == ')' || s.last() == ']' {
        depth(s.drop_last()) - 1
    } else {
        depth(s.drop_last())
    }
}

proof fn lemma_depth_bounds(s: Seq<char>)
    ensures
        -s.len() <= depth(s) <= s.len(),
    decreases s.len(),
{
    if s.len() > 0 {
        lemma_depth_bounds(s.drop_last());
    }
}

/// `s` cut at every comma outside brackets.
pub open spec fn outer_pieces(s: Seq<char>) -> Seq<Seq<char>>
    decreases s.len(),
{
    if s.len() == 0 {
        seq![Seq::empty()]
    } else {
        let before = outer_pieces(s.drop_last());
        if s.last() == ',' && depth(s.drop_last()) == 0 {
            before.push(Seq::empty())
        } else {
            before.drop_last().push(before.last().push(s.last()))
        }
    }
}

/// The elements of a list separated by commas outside brackets, trimmed. A last element of white
/// space alone does not count.
pub open spec fn elements(s: Seq<char>) -> Seq<Seq<char>> {
    let all = outer_pieces(s);
    let first = all.drop_last().map_values(|p: Seq<char>| trimmed(p));
    if trimmed(all.last()).len() > 0 {
        first.push(trimmed(all.last()))
    } else {
        first
    }
}

pub fn split_elements(s: &str) -> (r: Vec<String>)
    ensures
        views(r@) == elements(s@),
{
    let v = chars_of(s);
    let mut out: Vec<String> = Vec::new();
    let mut from: usize = 0;
    let mut level: i128 = 0;
    let mut i: usize = 0;
    let ghost trim_each = |p: Seq<char>| trimmed(p);
    proof {
        assert(v@.take(0).len() == 0);
        assert(outer_pieces(v@.take(0)) =~= seq![Seq::<char>::empty()]);
        assert(v@.subrange(0, 0) =~= Seq::<char>::empty());
        assert(views(out@) =~= outer_pieces(v@.take(0)).drop_last().map_values(trim_each));
    }
    while i < v.len()
        invariant
            from <= i <= v@.len(),
            trim_each == (|p: Seq<char>| trimmed(p)),
            -(i as int) <= level <= i,
            level == depth(v@.take(i as int)),
            outer_pieces(v@.take(i as int)).len() >= 1,
            outer_pieces(v@.take(i as int)).last() == v@.subrange(from as int, i as int),
            views(out@) == outer_pieces(v@.take(i as int)).drop_last().map_values(trim_each),
        decreases v@.len() - i,
    {
        proof {
            let t = v@.take(i + 1);
            assert(t.drop_last() =~= v@.take(i as int));
            assert(t.last() == v@[i as int]);
            lemma_depth_bounds(v@.take(i as int));
            assert(v@.subrange(from as int, i + 1) =~= v@.subrange(from as int, i as int).push(
                v@[i as int],
            ));
            assert(v@.subrange(i + 1, i + 1) =~= Seq::<char>::empty());
        }
        let ghost before = outer_pieces(v@.take(i as int));
        let ghost now = outer_pieces(v@.take(i + 1));
        let c = v[i];
        if c == '(' || c == '[' {
            level = level + 1;
        } else if c == ')' || c == ']' {
            level = level - 1;
        } else if c == ',' && level == 0 {
            let piece = text_of_chars(&v, from, i);
            push_text(&mut out, trim(piece.as_str()));
            from = i + 1;
        }
        proof {
            if c == ',' && depth(v@.take(i as int)) == 0 {
                assert(now == before.push(Seq::empty()));
                assert(now.drop_last() =~= before);
                assert(before =~= before.drop_last().push(before.last()));
                assert(views(out@) =~= now.drop_last().map_values(trim_each));
            } else {
                assert(now.drop_last() =~= before.drop_last());
                assert(now.last() == before.last().push(c));
            }
        }
        i += 1;
    }
    let piece = text_of_chars(&v, from, v.len());
    let last = trim(piece.as_str());
    proof {
        assert(v@.take(v@.len() as int) =~= v@);
    }
    let last_chars = chars_of(last.as_str());
    if last_chars.len() > 0 {
        push_text(&mut out, last);
    }
    out
}

/// The value of a digit.
pub open spec fn digit_value(c: char) -> Option<int> {
    if '0' <= c <= '9' {
        Some(c as u32 - '0' as u32)
    } else {
        None
    }
}

/// The value of a row of digits; an empty row has none.
pub open spec fn digits_value(s: Seq<char>) -> Option<int>
    decreases s.len(),
{
    if s.len() == 0 {
        None
    } else {
        match digit_value(s.last()) {
            None => None,
            Some(d) => if s.len() == 1 {
                Some(d)
            } else {
                match digits_value(s.drop_last()) {
                    None => None,
                    Some(n) => Some(n * 10 + d),
                }
            },
        }
    }
}

/// The value of a numeral, a row of digits with or without a sign before it.
pub open spec fn numeral_value(s: Seq<char>) -> Option<int> {
    if s.len() > 0 && s[0] == '-' {
        match digits_value(s.drop_first()) {
            Some(n) => Some(-n),
            None => None,
        }
    } else if s.len() > 0 && s[0] == '+' {
        digits_value(s.drop_first())
    } else {
        digits_value(s)
    }
}

proof fn lemma_digits_value(s: Seq<char>)
    ensures
        digits_value(s) matches Some(n) ==> n >= 0,
    decreases s.len(),
{
    if s.len() > 1 {
        lemma_digits_value(s.drop_last());
    }
}

/// A bad digit makes the whole row bad.
proof fn lemma_digits_prefix(s: Seq<char>, k: int)
    requires
        0 < k <= s.len(),
        digits_value(s.take(k)) is None,
    ensures
        digits_value(s) is None,
    decreases s.len(),
{
    if k < s.len() {
        assert(s.drop_last().take(k) =~= s.take(k));
        lemma_digits_prefix(s.drop_last(), k);
    } else {
        assert(s.take(k) =~= s);
    }
}

/// Past a bound that the value of a prefix exceeds, the value of the whole row stays.
proof fn lemma_digits_grow(s: Seq<char>, k: int, bound: int)
    requires
        0 < k <= s.len(),
        digits_value(s.take(k)) matches Some(n) && n > bound,
        bound >= 0,
    ensures
        digits_value(s) matches Some(n) ==> n > bound,
    decreases s.len(),
{
    if k < s.len() {
        assert(s.drop_last().take(k) =~= s.take(k));
        lemma_digits_grow(s.drop_last(), k, bound);
    } else {
        assert(s.take(k) =~= s);
    }
}

fn read_digits(v: &Vec<char>, from: usize) -> (r: Option<u64>)
    requires
        from <= v@.len(),
    ensures
        match digits_value(v@.skip(from as int)) {
            Some(n) => if n <= u64::MAX {
                r matches Some(m) && m == n
            } else {
                r is None
            },
            None => r is None,
        },
{
    let ghost s = v@.skip(from as int);
    if from == v.len() {
        return None;
    }
    let mut n: u64 = 0;
    let mut i: usize = from;
    while i < v.len()
        invariant
            from <= i <= v@.len(),
            from < v@.len(),
            s == v@.skip(from as int),
            i == from ==> n == 0,
            i > from ==> digits_value(s.take(i - from)) == Some(n as int),
        decreases v@.len() - i,
    {
        let c = v[i];
        proof {
            let t = s.take(i - from + 1);
            assert(t.last() == v@[i as int]);
            assert(t.drop_last() =~= s.take(i - from));
        }
        if !('0' <= c && c <= '9') {
            proof {
                assert(digits_value(s.take(i - from + 1)) is None);
                lemma_digits_prefix(s, i - from + 1);
            }
            return None;
        }
        let d: u64 = (c as u32 - '0' as u32) as u64;
        proof {
            assert(digits_value(s.take(i - from + 1)) == Some(n * 10 + d));
        }
        if n > (u64::MAX - d) / 10 {
            proof {
                assert(n * 10 + d > u64::MAX);
                lemma_digits_grow(s, i - from + 1, u64::MAX as int);
            }
            return None;
        }
        n = n * 10 + d;
        i += 1;
    }
    proof {
        assert(s.take(v@.len() - from) =~= s);
    }
    Some(n)
}

/// The number that a text is the numeral of, where it fits.
pub fn parse_i64(s: &str) -> (r: Option<i64>)
    ensures
        match numeral_value(s@) {
            Some(n) => if i64::MIN <= n <= i64::MAX {
                r matches Some(m) && m == n
            } else {
                r is None
            },
            None => r is None,
        },
{
    let v = chars_of(s);
    let negative = v.len() > 0 && v[0] == '-';
    let signed = negative || (v.len() > 0 && v[0] == '+');
    let from: usize = if signed { 1 } else { 0 };
    proof {
        assert(v@.skip(0) =~= v@);
        assert(v@.len() > 0 ==> v@.skip(1) =~= v@.drop_first());
        lemma_digits_value(v@.skip(from as int));
    }
    match read_digits(&v, from) {
        None => None,
        Some(n) => {
            if negative {
                if n <= 0x7fff_ffff_ffff_ffff {
                    Some(-(n as i64))
                } else if n == 0x8000_0000_0000_0000 {
                    Some(i64::MIN)
                } else {
                    None
                }
            } else if n <= 0x7fff_ffff_ffff_ffff {
                Some(n as i64)
            } else {
                None
            }
        },
    }
}

/// The count that a text is the numeral of, where it fits.
pub fn parse_usize(s: &str) -> (r: Option<usize>)
    ensures
        match count_value(s@) {
            Some(n) => if n <= usize::MAX {
                r matches Some(m) && m == n
            } else {
                r is None
            },
            None => r is None,
        },
{
    let v = chars_of(s);
    let from: usize = if v.len() > 0 && v[0] == '+' { 1 } else { 0 };
    proof {
        assert(v@.skip(0) =~= v@);
        assert(v@.len() > 0 ==> v@.skip(1) =~= v@.drop_first());
        lemma_digits_value(v@.skip(from as int));
    }
    match read_digits(&v, from) {
        None => None,
        Some(n) => if n <= usize::MAX as u64 {
            Some(n as usize)
        } else {
            None
        },
    }
}

/// The value of a numeral without a minus sign.
pub open spec fn count_value(s: Seq<char>) -> Option<int> {
    if s.len() > 0 && s[0] == '+' {
        digits_value(s.drop_first())
    } else {
        digits_value(s)
    }
}

/// `char::is_alphanumeric`.
pub uninterp spec fn alphanumeric(c: char) -> bool;

/// Calls `char::is_alphanumeric`, which is a property of the character alone. Of the characters
/// below U+0080 it holds for the digits and the letters.
#[verifier::external_body]
pub(crate) fn is_alphanumeric(c: char) -> (r: bool)
    ensures
        r == alphanumeric(c),
        (c as u32) < 0x80 ==> r == ('0' <= c <= '9' || 'A' <= c <= 'Z' || 'a' <= c <= 'z'),
{
    c.is_alphanumeric()
}

} // verus!
