//! Text as a sequence of characters: order, concatenation, decimal numbers.

use vstd::prelude::*;

verus! {

/// `String::push` appends one character to the end of the string.
pub assume_specification[ String::push ](s: &mut String, c: char)
    ensures
        final(s)@ == old(s)@.push(c),
;

/// Strict lexicographic order by code point, the order in which Rust compares strings.
pub open spec fn precedes(a: Seq<char>, b: Seq<char>) -> bool
    decreases a.len(),
{
    if b.len() == 0 {
        false
    } else if a.len() == 0 {
        true
    } else if a[0] != b[0] {
        a[0] < b[0]
    } else {
        precedes(a.drop_first(), b.drop_first())
    }
}

/// The texts that a sequence of strings holds.
pub open spec fn texts(strings: Seq<String>) -> Seq<Seq<char>> {
    strings.map_values(|s: String| s@)
}

/// Every text stands strictly before every later one.
pub open spec fn ascending(s: Seq<Seq<char>>) -> bool {
    forall|i: int, j: int| 0 <= i < j < s.len() ==> precedes(#[trigger] s[i], #[trigger] s[j])
}

/// `part` occurs somewhere inside `whole`.
pub open spec fn has_part(whole: Seq<char>, part: Seq<char>) -> bool {
    exists|i: int|
        0 <= i && i + part.len() <= whole.len() && #[trigger] whole.subrange(
            i,
            i + part.len(),
        ) == part
}

/// The character that writes the digit `d`.
pub open spec fn digit(d: nat) -> char {
    (('0' as int) + d) as char
}

/// `n` written in decimal, without leading zeros.
pub open spec fn decimal(n: nat) -> Seq<char>
    decreases n,
{
    if n < 10 {
        seq![digit(n)]
    } else {
        decimal(n / 10).push(digit(n % 10))
    }
}

/// No text stands before itself.
pub proof fn precedes_irreflexive(a: Seq<char>)
    ensures
        !precedes(a, a),
    decreases a.len(),
{
    if a.len() > 0 {
        precedes_irreflexive(a.drop_first());
    }
}

/// The order is transitive.
pub proof fn precedes_transitive(a: Seq<char>, b: Seq<char>, c: Seq<char>)
    requires
        precedes(a, b),
        precedes(b, c),
    ensures
        precedes(a, c),
    decreases a.len(),
{
    if a.len() > 0 && a[0] == b[0] && b[0] == c[0] {
        precedes_transitive(a.drop_first(), b.drop_first(), c.drop_first());
    }
}

/// Of two different texts one stands before the other.
pub proof fn precedes_total(a: Seq<char>, b: Seq<char>)
    ensures
        a == b || precedes(a, b) || precedes(b, a),
    decreases a.len(),
{
    if a.len() > 0 && b.len() > 0 && a[0] == b[0] {
        precedes_total(a.drop_first(), b.drop_first());
        if a.drop_first() == b.drop_first() {
            assert(a == seq![a[0]] + a.drop_first());
            assert(b == seq![b[0]] + b.drop_first());
        }
    } else if a.len() == 0 && b.len() == 0 {
        assert(a == b);
    }
}

/// The characters of a string.
pub fn chars_of(s: &str) -> (r: Vec<char>)
    ensures
        r@ == s@,
{
    let mut out: Vec<char> = Vec::new();
    for c in it: s.chars()
        invariant
            out@ == it.seq().take(it.index()),
            it.seq() == s@,
    {
        out.push(c);
    }
    out
}

/// Whether two strings hold the same text.
pub fn same_text(a: &str, b: &str) -> (r: bool)
    ensures
        r == (a@ == b@),
{
    a.to_owned() == b.to_owned()
}

/// Whether `a` stands strictly before `b`.
pub fn text_precedes(a: &str, b: &str) -> (r: bool)
    ensures
        r == precedes(a@, b@),
{
    let a = chars_of(a);
    let b = chars_of(b);
    let mut i: usize = 0;
    assert(a@.skip(0) == a@);
    assert(b@.skip(0) == b@);
    while i < a.len() && i < b.len() && a[i] == b[i]
        invariant
            i <= a.len(),
            i <= b.len(),
            precedes(a@, b@) == precedes(a@.skip(i as int), b@.skip(i as int)),
        decreases a.len() - i,
    {
        assert(a@.skip(i as int).drop_first() == a@.skip(i + 1));
        assert(b@.skip(i as int).drop_first() == b@.skip(i + 1));
        i = i + 1;
    }
    if i >= b.len() {
        false
    } else if i >= a.len() {
        true
    } else {
        a[i] < b[i]
    }
}

/// Two texts, one behind the other.
pub fn joined(a: &str, b: &str) -> (r: String)
    ensures
        r@ == a@ + b@,
{
    a.to_owned().concat(b)
}

/// Whether `part` occurs somewhere inside `whole`.
pub fn text_has_part(whole: &str, part: &str) -> (r: bool)
    ensures
        r == has_part(whole@, part@),
{
    let text = chars_of(whole);
    let sought = chars_of(part);
    if sought.len() == 0 {
        assert(whole@.subrange(0, 0int + part@.len()) == part@);
        return true;
    }
    if sought.len() > text.len() {
        return false;
    }
    let last: usize = text.len() - sought.len();
    let mut i: usize = 0;
    while i <= last
        invariant
            text@ == whole@,
            sought@ == part@,
            sought.len() > 0,
            last == text.len() - sought.len(),
            i <= last + 1,
            forall|j: int| 0 <= j < i ==> #[trigger] whole@.subrange(j, j + part@.len()) != part@,
        decreases last + 1 - i,
    {
        let mut k: usize = 0;
        while k < sought.len() && text[i + k] == sought[k]
            invariant
                k <= sought.len(),
                i <= last,
                last == text.len() - sought.len(),
                forall|m: int| 0 <= m < k ==> text@[i + m] == #[trigger] sought@[m],
            decreases sought.len() - k,
        {
            k = k + 1;
        }
        if k == sought.len() {
            assert(whole@.subrange(i as int, i + part@.len()) == part@);
            return true;
        }
        assert(whole@.subrange(i as int, i + part@.len())[k as int] != part@[k as int]);
        i = i + 1;
    }
    false
}

/// The character that writes a digit.
fn digit_char(d: usize) -> (r: char)
    requires
        d < 10,
    ensures
        r == digit(d as nat),
{
    match d {
        0 => '0',
        1 => '1',
        2 => '2',
        3 => '3',
        4 => '4',
        5 => '5',
        6 => '6',
        7 => '7',
        8 => '8',
        _ => '9',
    }
}

/// A number written in decimal.
pub fn decimal_of(n: usize) -> (r: String)
    ensures
        r@ == decimal(n as nat),
    decreases n,
{
    if n < 10 {
        let mut out = String::new();
        out.push(digit_char(n));
        assert(out@ == seq![digit(n as nat)]);
        out
    } else {
        let mut out = decimal_of(n / 10);
        out.push(digit_char(n % 10));
        out
    }
}

/// `c` in lower case where it is an upper case letter of ASCII.
pub open spec fn ascii_lower(c: char) -> char {
    if 'A' <= c <= 'Z' {
        (c as int + 32) as char
    } else {
        c
    }
}

/// `s` with every upper case letter of ASCII in lower case.
pub open spec fn lower_text(s: Seq<char>) -> Seq<char> {
    s.map_values(|c: char| ascii_lower(c))
}

/// A string with every upper case letter of ASCII in lower case.
pub fn lowercased(s: &str) -> (r: String)
    ensures
        r@ == lower_text(s@),
{
    let chars = chars_of(s);
    let mut out = String::new();
    for i in 0..chars.len()
        invariant
            out@ == lower_text(chars@.take(i as int)),
    {
        let c = chars[i];
        if 'A' <= c && c <= 'Z' {
            let code: u8 = c as u8;
            out.push((code + 32) as char);
        } else {
            out.push(c);
        }
        assert(chars@.take(i + 1) == chars@.take(i as int).push(c));
        assert(out@ == lower_text(chars@.take(i + 1)));
    }
    assert(chars@.take(chars@.len() as int) == chars@);
    out
}

/// Puts a text into an ascending list, unless it is there.
pub fn insert_text(list: &mut Vec<String>, s: String)
    requires
        ascending(texts(old(list)@)),
    ensures
        ascending(texts(final(list)@)),
        forall|t: Seq<char>| #[trigger]
            texts(final(list)@).contains(t) <==> texts(old(list)@).contains(t) || t == s@,
{
    let ghost before = texts(list@);
    let mut i: usize = 0;
    while i < list.len() && text_precedes(&list[i], &s)
        invariant
            i <= list.len(),
            list@ == old(list)@,
            before == texts(list@),
            forall|j: int| 0 <= j < i ==> precedes(#[trigger] before[j], s@),
        decreases list.len() - i,
    {
        i = i + 1;
    }
    if i < list.len() && list[i] == s {
        assert(before[i as int] == s@);
        return ;
    }
    proof {
        if i < list.len() {
            precedes_total(before[i as int], s@);
            assert forall|j: int| i <= j < before.len() implies precedes(
                s@,
                #[trigger] before[j],
            ) by {
                if j > i {
                    precedes_transitive(s@, before[i as int], before[j]);
                }
            }
        }
    }
    list.insert(i, s);
    let ghost after = texts(list@);
    assert(after == before.insert(i as int, s@));
    assert forall|t: Seq<char>| #[trigger] after.contains(t) <==> before.contains(t) || t
        == s@ by {
        if before.contains(t) {
            let k = choose|k: int| 0 <= k < before.len() && before[k] == t;
            if k < i {
                assert(after[k] == t);
            } else {
                assert(after[k + 1] == t);
            }
        }
        if t == s@ {
            assert(after[i as int] == t);
        }
        if after.contains(t) && t != s@ {
            let k = choose|k: int| 0 <= k < after.len() && after[k] == t;
            if k < i {
                assert(before[k] == t);
            } else {
                assert(before[k - 1] == t);
            }
        }
    }
}

/// An ascending list is determined by the texts in it: two such lists with the same
/// members are the same list.
pub proof fn ascending_list_is_determined(a: Seq<Seq<char>>, b: Seq<Seq<char>>)
    requires
        ascending(a),
        ascending(b),
        forall|t: Seq<char>| #[trigger] a.contains(t) <==> b.contains(t),
    ensures
        a == b,
    decreases a.len(),
{
    if a.len() == 0 {
        if b.len() > 0 {
            assert(b.contains(b[0]));
            assert(a.contains(b[0]));
        }
        assert(a == b);
    } else {
        assert(a.contains(a[0]));
        assert(b.len() > 0);
        assert(b.contains(b[0]));
        assert(a.contains(b[0]));
        if a[0] != b[0] {
            let i = choose|i: int| 0 <= i < b.len() && b[i] == a[0];
            let j = choose|j: int| 0 <= j < a.len() && a[j] == b[0];
            assert(precedes(b[0], b[i]));
            assert(precedes(a[0], a[j]));
            precedes_transitive(a[0], b[0], a[0]);
            precedes_irreflexive(a[0]);
        }
        let x = a.drop_first();
        let y = b.drop_first();
        assert forall|t: Seq<char>| #[trigger] x.contains(t) <==> y.contains(t) by {
            if x.contains(t) {
                let k = choose|k: int| 0 <= k < x.len() && x[k] == t;
                assert(a[k + 1] == t);
                assert(precedes(a[0], a[k + 1]));
                precedes_irreflexive(t);
                assert(a.contains(t));
                let m = choose|m: int| 0 <= m < b.len() && b[m] == t;
                assert(y[m - 1] == t);
            }
            if y.contains(t) {
                let k = choose|k: int| 0 <= k < y.len() && y[k] == t;
                assert(b[k + 1] == t);
                assert(precedes(b[0], b[k + 1]));
                precedes_irreflexive(t);
                assert(b.contains(t));
                assert(a.contains(t));
                let m = choose|m: int| 0 <= m < a.len() && a[m] == t;
                assert(x[m - 1] == t);
            }
        }
        ascending_list_is_determined(x, y);
        assert(a == seq![a[0]] + x);
        assert(b == seq![b[0]] + y);
    }
}

/// The first difference decides: of two texts that part after a common beginning, the one
/// that goes on with the smaller code point stands first, whatever follows.
pub proof fn the_first_difference_decides(start: Seq<char>, a: Seq<char>, b: Seq<char>)
    requires
        a.len() > 0,
        b.len() > 0,
        a[0] != b[0],
    ensures
        precedes(start + a, start + b) <==> (a[0] as int) < (b[0] as int),
    decreases start.len(),
{
    if start.len() == 0 {
        assert(start + a == a);
        assert(start + b == b);
    } else {
        the_first_difference_decides(start.drop_first(), a, b);
        assert((start + a).drop_first() == start.drop_first() + a);
        assert((start + b).drop_first() == start.drop_first() + b);
    }
}

/// A text stands before every longer one that it begins, and never behind it.
pub proof fn a_beginning_stands_first(start: Seq<char>, rest: Seq<char>)
    ensures
        precedes(start, start + rest) <==> rest.len() > 0,
        !precedes(start + rest, start),
    decreases start.len(),
{
    if start.len() == 0 {
        assert(start + rest == rest);
    } else {
        a_beginning_stands_first(start.drop_first(), rest);
        assert((start + rest).drop_first() == start.drop_first() + rest);
    }
}

/// A text has a part if and only if it is something, the part, and something more.
pub proof fn a_part_has_its_surroundings(whole: Seq<char>, part: Seq<char>)
    ensures
        has_part(whole, part) <==> exists|before: Seq<char>, behind: Seq<char>|
            whole == #[trigger] before.add(part).add(behind),
{
    if has_part(whole, part) {
        let i = choose|i: int|
            0 <= i && i + part.len() <= whole.len() && #[trigger] whole.subrange(
                i,
                i + part.len(),
            ) == part;
        let before = whole.take(i);
        let behind = whole.skip(i + part.len());
        assert(whole == before.add(whole.subrange(i, i + part.len())).add(behind));
    }
    if exists|before: Seq<char>, behind: Seq<char>|
        whole == #[trigger] before.add(part).add(behind) {
        let (before, behind) = choose|before: Seq<char>, behind: Seq<char>|
            whole == #[trigger] before.add(part).add(behind);
        let i = before.len() as int;
        assert(whole.subrange(i, i + part.len()) == part);
    }
}

/// The number that a text of digits writes.
pub open spec fn number_written(text: Seq<char>) -> int
    decreases text.len(),
{
    if text.len() == 0 {
        0
    } else {
        number_written(text.drop_last()) * 10 + (text.last() as int - '0' as int)
    }
}

/// A number is written in digits that read as it, without a leading zero.
pub proof fn a_number_is_written_as_it_reads(n: nat)
    ensures
        number_written(decimal(n)) == n,
        decimal(n).len() > 0,
        forall|i: int| 0 <= i < decimal(n).len() ==> '0' <= #[trigger] decimal(n)[i] <= '9',
        decimal(n)[0] == '0' ==> n == 0 && decimal(n).len() == 1,
    decreases n,
{
    let text = decimal(n);
    if n < 10 {
        assert(text.drop_last() == Seq::<char>::empty());
        assert(text[0] as int == '0' as int + n);
        assert(number_written(text.drop_last()) == 0);
    } else {
        let front = decimal(n / 10);
        a_number_is_written_as_it_reads(n / 10);
        assert(text.drop_last() == front);
        assert(text.last() as int == '0' as int + n % 10);
        assert(text[0] == front[0]);
        assert forall|i: int| 0 <= i < text.len() implies '0' <= #[trigger] text[i] <= '9' by {
            if i < front.len() {
                assert(text[i] == front[i]);
            }
        }
    }
}

/// Putting a text in lower case moves each capital of ASCII to its small letter, which is
/// as far behind it as `a` is behind `A`, and leaves every other character alone.
pub proof fn only_capitals_change(s: Seq<char>, i: int)
    requires
        0 <= i < s.len(),
    ensures
        lower_text(s).len() == s.len(),
        'A' <= s[i] <= 'Z' ==> lower_text(s)[i] as int - s[i] as int == 'a' as int - 'A' as int,
        !('A' <= s[i] <= 'Z') ==> lower_text(s)[i] == s[i],
        !('A' <= lower_text(s)[i] <= 'Z'),
{
    assert(lower_text(s)[i] == ascii_lower(s[i]));
}

/// The texts that strings hold are their own, one for each, in order.
pub proof fn every_string_has_its_text(strings: Seq<String>, i: int)
    requires
        0 <= i < strings.len(),
    ensures
        texts(strings).len() == strings.len(),
        texts(strings)[i] == strings[i]@,
{
}

} // verus!
