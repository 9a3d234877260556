//! Strings as sequences of characters: the few operations on text that the
//! rest of the library is built from, each with the sequence it yields.

use vstd::prelude::*;
use vstd::string::*;

verus! {

/// The Unicode property `White_Space`.
pub open spec fn is_white_space(c: char) -> bool {
    let n = c as int;
    ||| 0x9 <= n <= 0xd
    ||| n == 0x20
    ||| n == 0x85
    ||| n == 0xa0
    ||| n == 0x1680
    ||| 0x2000 <= n <= 0x200a
    ||| n == 0x2028
    ||| n == 0x2029
    ||| n == 0x202f
    ||| n == 0x205f
    ||| n == 0x3000
}

/// Specifies `char::is_whitespace` of the standard library: it holds of the
/// characters with the Unicode property `White_Space`, and of no others.
pub assume_specification[ char::is_whitespace ](c: char) -> (r: bool)
    ensures
        r == is_white_space(c),
;

/// Specifies `String::push` of the standard library: the character is
/// appended, and what was there stays.
pub assume_specification[ String::push ](s: &mut String, c: char)
    ensures
        final(s)@ == old(s)@.push(c),
;

/// All white space characters.
pub open spec fn white_space() -> Set<char> {
    Set::new(|c: char| is_white_space(c))
}

/// `s` without its longest prefix made of characters in `cs`.
pub open spec fn strip_front(s: Seq<char>, cs: Set<char>) -> Seq<char>
    decreases s.len(),
{
    if s.len() > 0 && cs.contains(s[0]) {
        strip_front(s.skip(1), cs)
    } else {
        s
    }
}

/// `s` without its longest suffix made of characters in `cs`.
pub open spec fn strip_back(s: Seq<char>, cs: Set<char>) -> Seq<char>
    decreases s.len(),
{
    if s.len() > 0 && cs.contains(s.last()) {
        strip_back(s.drop_last(), cs)
    } else {
        s
    }
}

/// `s` without leading and trailing white space.
pub open spec fn trimmed(s: Seq<char>) -> Seq<char> {
    strip_back(strip_front(s, white_space()), white_space())
}

proof fn lemma_strip_front(s: Seq<char>, cs: Set<char>, i: int)
    requires
        0 <= i <= s.len(),
        forall|j: int| 0 <= j < i ==> cs.contains(#[trigger] s[j]),
        i < s.len() ==> !cs.contains(s[i]),
    ensures
        strip_front(s, cs) == s.skip(i),
    decreases i,
{
    if i > 0 {
        assert(cs.contains(s[0]));
        let t = s.skip(1);
        assert forall|j: int| 0 <= j < i - 1 implies cs.contains(#[trigger] t[j]) by {
            assert(t[j] == s[j + 1]);
        }
        lemma_strip_front(t, cs, i - 1);
        assert(t.skip(i - 1) =~= s.skip(i));
    } else {
        assert(s.skip(0) =~= s);
    }
}

proof fn lemma_strip_back(s: Seq<char>, cs: Set<char>, n: int)
    requires
        0 <= n <= s.len(),
        forall|j: int| n <= j < s.len() ==> cs.contains(#[trigger] s[j]),
        n > 0 ==> !cs.contains(s[n - 1]),
    ensures
        strip_back(s, cs) == s.take(n),
    decreases s.len() - n,
{
    if n < s.len() {
        assert(cs.contains(s[s.len() - 1]));
        lemma_strip_back(s.drop_last(), cs, n);
        assert(s.drop_last().take(n) =~= s.take(n));
    } else {
        assert(s.take(n) =~= s);
    }
}

proof fn lemma_strip_front_shape(s: Seq<char>, cs: Set<char>)
    ensures
        exists|i: int| 0 <= i <= s.len() && strip_front(s, cs) == #[trigger] s.skip(i),
        strip_front(s, cs).len() > 0 ==> !cs.contains(strip_front(s, cs)[0]),
    decreases s.len(),
{
    if s.len() > 0 && cs.contains(s[0]) {
        lemma_strip_front_shape(s.skip(1), cs);
        let i = choose|i: int|
            0 <= i <= s.skip(1).len() && strip_front(s.skip(1), cs) == #[trigger] s.skip(1).skip(i);
        assert(s.skip(1).skip(i) =~= s.skip(i + 1));
    } else {
        assert(s.skip(0) =~= s);
    }
}

proof fn lemma_strip_back_shape(s: Seq<char>, cs: Set<char>)
    ensures
        exists|n: int| 0 <= n <= s.len() && strip_back(s, cs) == #[trigger] s.take(n),
        strip_back(s, cs).len() > 0 ==> !cs.contains(strip_back(s, cs).last()),
    decreases s.len(),
{
    if s.len() > 0 && cs.contains(s.last()) {
        lemma_strip_back_shape(s.drop_last(), cs);
        let n = choose|n: int|
            0 <= n <= s.drop_last().len() && strip_back(s.drop_last(), cs)
                == #[trigger] s.drop_last().take(n);
        assert(s.drop_last().take(n) =~= s.take(n));
    } else {
        assert(s.take(s.len() as int) =~= s);
    }
}

/// Text without white space at its ends stays as it is when it is trimmed; in
/// particular, trimming twice is trimming once.
pub proof fn law_trim_once(s: Seq<char>)
    ensures
        trimmed(trimmed(s)) == trimmed(s),
        trimmed(s).len() > 0 ==> !is_white_space(trimmed(s)[0]) && !is_white_space(
            trimmed(s).last(),
        ),
{
    let f = strip_front(s, white_space());
    lemma_strip_front_shape(s, white_space());
    lemma_strip_back_shape(f, white_space());
    let t = trimmed(s);
    let n = choose|n: int| 0 <= n <= f.len() && t == #[trigger] f.take(n);
    if t.len() > 0 {
        assert(t[0] == f[0]);
    }
}

/// Trimming takes off the white space at the ends of a text and nothing else:
/// whatever stands between, of any length, stays.
pub proof fn law_trim_takes_off_ends(front: Seq<char>, text: Seq<char>, back: Seq<char>)
    requires
        forall|i: int| 0 <= i < front.len() ==> is_white_space(#[trigger] front[i]),
        forall|i: int| 0 <= i < back.len() ==> is_white_space(#[trigger] back[i]),
        text.len() > 0 ==> !is_white_space(text[0]) && !is_white_space(text.last()),
    ensures
        trimmed(front + text + back) == text,
{
    let ws = white_space();
    let s = front + text + back;
    if text.len() == 0 {
        assert forall|j: int| 0 <= j < s.len() implies ws.contains(#[trigger] s[j]) by {
            if j < front.len() {
                assert(s[j] == front[j]);
            } else {
                assert(s[j] == back[j - front.len()]);
            }
        }
        lemma_strip_front(s, ws, s.len() as int);
        assert(s.skip(s.len() as int) =~= text);
    } else {
        assert forall|j: int| 0 <= j < front.len() implies ws.contains(#[trigger] s[j]) by {
            assert(s[j] == front[j]);
        }
        assert(s[front.len() as int] == text[0]);
        lemma_strip_front(s, ws, front.len() as int);
        let rest = s.skip(front.len() as int);
        assert(rest =~= text + back);
        assert forall|j: int| text.len() <= j < rest.len() implies ws.contains(
            #[trigger] rest[j],
        ) by {
            assert(rest[j] == back[j - text.len()]);
        }
        assert(rest[text.len() - 1] == text.last());
        lemma_strip_back(rest, ws, text.len() as int);
        assert(rest.take(text.len() as int) =~= text);
    }
}

/// Taking a character off the front of a text takes all its copies there and
/// nothing else; so it is at the back.
pub proof fn law_strip_takes_copies(c: char, copies: nat, text: Seq<char>)
    ensures
        (text.len() > 0 ==> text[0] != c) ==> strip_front(
            Seq::new(copies, |i: int| c) + text,
            set![c],
        ) == text,
        (text.len() > 0 ==> text.last() != c) ==> strip_back(
            text + Seq::new(copies, |i: int| c),
            set![c],
        ) == text,
{
    let run = Seq::new(copies, |i: int| c);
    let cs = set![c];
    if text.len() > 0 ==> text[0] != c {
        let s = run + text;
        assert forall|j: int| 0 <= j < copies implies cs.contains(#[trigger] s[j]) by {
            assert(s[j] == run[j]);
        }
        lemma_strip_front(s, cs, copies as int);
        assert(s.skip(copies as int) =~= text);
    }
    if text.len() > 0 ==> text.last() != c {
        let s = text + run;
        assert forall|j: int| text.len() <= j < s.len() implies cs.contains(#[trigger] s[j]) by {
            assert(s[j] == run[j - text.len()]);
        }
        lemma_strip_back(s, cs, text.len() as int);
        assert(s.take(text.len() as int) =~= text);
    }
}

/// The characters of `s`.
pub fn to_chars(s: &str) -> (r: Vec<char>)
    ensures
        r@ == s@,
{
    let mut r: Vec<char> = Vec::new();
    for c in it: s.chars()
        invariant
            r@ == s@.take(it.index()),
            it.seq() == s@,
    {
        r.push(c);
        assert(s@.take(it.index()).push(c) =~= s@.take(it.index() + 1));
    }
    assert(s@.take(s@.len() as int) =~= s@);
    r
}

/// The string made of `chars[from..to]`.
pub fn from_chars(chars: &Vec<char>, from: usize, to: usize) -> (r: String)
    requires
        from <= to <= chars@.len(),
    ensures
        r@ == chars@.subrange(from as int, to as int),
{
    let mut r = String::new();
    let mut i: usize = from;
    while i < to
        invariant
            from <= i <= to <= chars@.len(),
            r@ == chars@.subrange(from as int, i as int),
        decreases to - i,
    {
        r.push(chars[i]);
        i += 1;
        assert(chars@.subrange(from as int, i as int) =~= chars@.subrange(
            from as int,
            i - 1,
        ).push(chars@[i - 1]));
    }
    r
}

/// `s` without leading and trailing white space.
pub fn trim(s: &str) -> (r: String)
    ensures
        r@ == trimmed(s@),
{
    let chars = to_chars(s);
    let n = chars.len();
    let mut i: usize = 0;
    while i < n && chars[i].is_whitespace()
        invariant
            n == chars@.len(),
            i <= n,
            forall|j: int| 0 <= j < i ==> white_space().contains(#[trigger] chars@[j]),
        ensures
            i <= n,
            forall|j: int| 0 <= j < i ==> white_space().contains(#[trigger] chars@[j]),
            i < n ==> !white_space().contains(chars@[i as int]),
        decreases n - i,
    {
        i += 1;
    }
    let mut k: usize = n;
    while k > i && chars[k - 1].is_whitespace()
        invariant
            n == chars@.len(),
            i <= k <= n,
            forall|j: int| k <= j < n ==> white_space().contains(#[trigger] chars@[j]),
        ensures
            i <= k <= n,
            forall|j: int| k <= j < n ==> white_space().contains(#[trigger] chars@[j]),
            k > i ==> !white_space().contains(chars@[k - 1]),
        decreases k,
    {
        k -= 1;
    }
    proof {
        lemma_strip_front(chars@, white_space(), i as int);
        let t = chars@.skip(i as int);
        lemma_strip_back(t, white_space(), k - i);
        assert(t.take(k - i) =~= chars@.subrange(i as int, k as int));
    }
    from_chars(&chars, i, k)
}

/// `s` without the copies of `c` at its end.
pub fn trim_end_matches(s: &str, c: char) -> (r: String)
    ensures
        r@ == strip_back(s@, set![c]),
{
    let chars = to_chars(s);
    let n = chars.len();
    let mut k: usize = n;
    while k > 0 && chars[k - 1] == c
        invariant
            n == chars@.len(),
            k <= n,
            forall|j: int| k <= j < n ==> set![c].contains(#[trigger] chars@[j]),
        ensures
            k <= n,
            forall|j: int| k <= j < n ==> set![c].contains(#[trigger] chars@[j]),
            k > 0 ==> !set![c].contains(chars@[k - 1]),
        decreases k,
    {
        k -= 1;
    }
    proof {
        lemma_strip_back(chars@, set![c], k as int);
        assert(chars@.take(k as int) =~= chars@.subrange(0, k as int));
    }
    from_chars(&chars, 0, k)
}

/// `s` without the copies of `c` at its start.
pub fn trim_start_matches(s: &str, c: char) -> (r: String)
    ensures
        r@ == strip_front(s@, set![c]),
{
    let chars = to_chars(s);
    let n = chars.len();
    let mut i: usize = 0;
    while i < n && chars[i] == c
        invariant
            n == chars@.len(),
            i <= n,
            forall|j: int| 0 <= j < i ==> set![c].contains(#[trigger] chars@[j]),
        ensures
            i <= n,
            forall|j: int| 0 <= j < i ==> set![c].contains(#[trigger] chars@[j]),
            i < n ==> !set![c].contains(chars@[i as int]),
        decreases n - i,
    {
        i += 1;
    }
    proof {
        lemma_strip_front(chars@, set![c], i as int);
        assert(chars@.skip(i as int) =~= chars@.subrange(i as int, n as int));
    }
    from_chars(&chars, i, n)
}

/// The pieces of `s` between the separators `sep`, in order. There is always
/// one piece more than there are separators.
pub open spec fn pieces(s: Seq<char>, sep: char) -> Seq<Seq<char>>
    decreases s.len(),
{
    if s.len() == 0 {
        seq![Seq::<char>::empty()]
    } else {
        let before = pieces(s.drop_last(), sep);
        if s.last() == sep {
            before.push(Seq::<char>::empty())
        } else {
            before.drop_last().push(before.last().push(s.last()))
        }
    }
}

pub(crate) proof fn lemma_pieces_not_empty(s: Seq<char>, sep: char)
    ensures
        pieces(s, sep).len() > 0,
    decreases s.len(),
{
    if s.len() > 0 {
        lemma_pieces_not_empty(s.drop_last(), sep);
    }
}

/// The parts with the separator `sep` between them.
pub open spec fn joined(parts: Seq<Seq<char>>, sep: char) -> Seq<char>
    decreases parts.len(),
{
    if parts.len() == 0 {
        Seq::empty()
    } else if parts.len() == 1 {
        parts[0]
    } else {
        joined(parts.drop_last(), sep).push(sep) + parts.last()
    }
}

pub(crate) proof fn lemma_one_piece(s: Seq<char>, sep: char)
    requires
        forall|i: int| 0 <= i < s.len() ==> #[trigger] s[i] != sep,
    ensures
        pieces(s, sep) == seq![s],
    decreases s.len(),
{
    if s.len() > 0 {
        let rest = s.drop_last();
        lemma_one_piece(rest, sep);
        assert(s[s.len() - 1] != sep);
        assert(pieces(s, sep) =~= seq![rest.push(s.last())]);
        assert(rest.push(s.last()) =~= s);
    } else {
        assert(s =~= Seq::<char>::empty());
    }
}

pub(crate) proof fn lemma_pieces_append(s: Seq<char>, sep: char, part: Seq<char>)
    requires
        forall|i: int| 0 <= i < part.len() ==> #[trigger] part[i] != sep,
    ensures
        pieces(s.push(sep) + part, sep) == pieces(s, sep).push(part),
    decreases part.len(),
{
    let all = s.push(sep) + part;
    if part.len() == 0 {
        assert(all =~= s.push(sep));
        assert(all.drop_last() =~= s);
        assert(part =~= Seq::<char>::empty());
    } else {
        let rest = part.drop_last();
        assert forall|i: int| 0 <= i < rest.len() implies #[trigger] rest[i] != sep by {
            assert(rest[i] == part[i]);
        }
        lemma_pieces_append(s, sep, rest);
        assert(all.drop_last() =~= s.push(sep) + rest);
        assert(all.last() == part[part.len() - 1]);
        assert(rest.push(part.last()) =~= part);
        assert(pieces(s, sep).push(rest).drop_last() =~= pieces(s, sep));
    }
}

pub(crate) proof fn lemma_pieces_prepend(part: Seq<char>, sep: char, s: Seq<char>)
    requires
        forall|i: int| 0 <= i < part.len() ==> #[trigger] part[i] != sep,
    ensures
        pieces(part.push(sep) + s, sep) == seq![part] + pieces(s, sep),
    decreases s.len(),
{
    let all = part.push(sep) + s;
    lemma_pieces_not_empty(s, sep);
    if s.len() == 0 {
        assert(all =~= part.push(sep));
        assert(all.drop_last() =~= part);
        lemma_one_piece(part, sep);
        assert(pieces(all, sep) =~= seq![part] + pieces(s, sep));
    } else {
        let rest = s.drop_last();
        lemma_pieces_not_empty(rest, sep);
        lemma_pieces_prepend(part, sep, rest);
        assert(all.drop_last() =~= part.push(sep) + rest);
        assert(all.last() == s.last());
        assert(pieces(all, sep) =~= seq![part] + pieces(s, sep));
    }
}

/// Splitting undoes joining: parts without the separator, of any number and
/// length, are given back as they were.
pub proof fn law_split_undoes_join(parts: Seq<Seq<char>>, sep: char)
    requires
        parts.len() > 0,
        forall|k: int, i: int|
            0 <= k < parts.len() && 0 <= i < parts[k].len() ==> #[trigger] parts[k][i] != sep,
    ensures
        pieces(joined(parts, sep), sep) == parts,
    decreases parts.len(),
{
    if parts.len() == 1 {
        lemma_one_piece(parts[0], sep);
        assert(parts =~= seq![parts[0]]);
    } else {
        let rest = parts.drop_last();
        assert forall|k: int, i: int| 0 <= k < rest.len() && 0 <= i < rest[k].len() implies
            #[trigger] rest[k][i] != sep by {
            assert(rest[k][i] == parts[k][i]);
        }
        law_split_undoes_join(rest, sep);
        let last = parts.last();
        assert forall|i: int| 0 <= i < last.len() implies #[trigger] last[i] != sep by {
            assert(last[i] == parts[parts.len() - 1][i]);
        }
        lemma_pieces_append(joined(rest, sep), sep, last);
        assert(rest.push(last) =~= parts);
    }
}

/// The views of a list of strings.
pub open spec fn views(list: Seq<String>) -> Seq<Seq<char>> {
    list.map_values(|s: String| s@)
}

/// What an optional string holds.
pub open spec fn text_view(s: Option<String>) -> Option<Seq<char>> {
    match s {
        Some(s) => Some(s@),
        None => None,
    }
}

/// The pieces of `s` between the separators `sep`.
pub fn split(s: &str, sep: char) -> (r: Vec<String>)
    ensures
        views(r@) == pieces(s@, sep),
        r@.len() > 0,
{
    let chars = to_chars(s);
    let mut r: Vec<String> = Vec::new();
    let mut piece = String::new();
    let mut i: usize = 0;
    assert(chars@.take(0) =~= Seq::<char>::empty());
    while i < chars.len()
        invariant
            chars@ == s@,
            i <= chars@.len(),
            views(r@).push(piece@) =~= pieces(chars@.take(i as int), sep),
        decreases chars.len() - i,
    {
        let c = chars[i];
        let ghost before = pieces(chars@.take(i as int), sep);
        assert(chars@.take(i + 1).drop_last() =~= chars@.take(i as int));
        assert(before.last() == piece@);
        assert(before.drop_last() =~= views(r@));
        if c == sep {
            let ghost prior = r@;
            r.push(piece);
            piece = String::new();
            assert(views(r@) =~= views(prior).push(before.last()));
        } else {
            piece.push(c);
        }
        i += 1;
    }
    assert(chars@.take(i as int) =~= s@);
    let ghost prior = r@;
    r.push(piece);
    assert(views(r@) =~= views(prior).push(piece@));
    r
}

/// Whether `c` is one of the ten decimal digits.
pub open spec fn is_digit(c: char) -> bool {
    '0' <= c <= '9'
}

/// The number that a sequence of decimal digits denotes.
pub open spec fn digits_value(s: Seq<char>) -> nat
    decreases s.len(),
{
    if s.len() == 0 {
        0
    } else {
        10 * digits_value(s.drop_last()) + (s.last() as int - '0' as int) as nat
    }
}

/// The digits of `s` that are left when one leading plus sign is taken off.
pub open spec fn unsigned_digits(s: Seq<char>) -> Seq<char> {
    if s.len() > 0 && s[0] == '+' {
        s.skip(1)
    } else {
        s
    }
}

/// The number that `s` denotes as a `u64`: an optional plus sign, then at
/// least one decimal digit and nothing else, with a value that fits.
pub open spec fn parsed_u64(s: Seq<char>) -> Option<u64> {
    let d = unsigned_digits(s);
    if d.len() > 0 && (forall|i: int| 0 <= i < d.len() ==> is_digit(#[trigger] d[i]))
        && digits_value(d) <= u64::MAX {
        Some(digits_value(d) as u64)
    } else {
        None
    }
}

proof fn lemma_digits_value_prefix(s: Seq<char>, n: int)
    requires
        0 <= n <= s.len(),
    ensures
        digits_value(s.take(n)) <= digits_value(s),
    decreases s.len() - n,
{
    if n < s.len() {
        lemma_digits_value_prefix(s.drop_last(), n);
        assert(s.drop_last().take(n) =~= s.take(n));
    } else {
        assert(s.take(n) =~= s);
    }
}

/// The number that `s` denotes, if it denotes one.
pub fn parse_u64(s: &str) -> (r: Option<u64>)
    ensures
        r == parsed_u64(s@),
{
    let chars = to_chars(s);
    let n = chars.len();
    let start: usize = if n > 0 && chars[0] == '+' {
        1
    } else {
        0
    };
    let ghost d = unsigned_digits(s@);
    assert(d =~= chars@.skip(start as int));
    if start == n {
        return None;
    }
    let mut value: u64 = 0;
    let mut i: usize = start;
    assert(d.take(0) =~= Seq::<char>::empty());
    while i < n
        invariant
            n == chars@.len(),
            start <= i <= n,
            d == chars@.skip(start as int),
            d == unsigned_digits(s@),
            d.len() > 0,
            forall|j: int| 0 <= j < i - start ==> is_digit(#[trigger] d[j]),
            value == digits_value(d.take(i - start)),
        decreases n - i,
    {
        let c = chars[i];
        let ghost k = i - start;
        assert(d[k] == c);
        if c < '0' || c > '9' {
            return None;
        }
        assert(d.take(k + 1).drop_last() =~= d.take(k));
        assert(digits_value(d.take(k + 1)) == 10 * value + (c as int - '0' as int));
        proof {
            lemma_digits_value_prefix(d, k + 1);
        }
        let digit: u64 = (c as u32 - '0' as u32) as u64;
        match value.checked_mul(10) {
            None => {
                return None;
            },
            Some(tens) => match tens.checked_add(digit) {
                None => {
                    return None;
                },
                Some(next) => {
                    value = next;
                },
            },
        }
        i += 1;
    }
    assert(d.take(n - start) =~= d);
    Some(value)
}

/// The character of a digit below ten.
pub open spec fn digit_char(n: nat) -> char {
    ('0' as int + n) as char
}

/// `n` in decimal, without leading zeros.
pub open spec fn decimal(n: nat) -> Seq<char>
    decreases n,
{
    if n < 10 {
        seq![digit_char(n)]
    } else {
        decimal(n / 10).push(digit_char(n % 10))
    }
}

fn digit_to_char(n: u64) -> (r: char)
    requires
        n < 10,
    ensures
        r == digit_char(n as nat),
{
    (48u8 + n as u8) as char
}

/// `n` in decimal.
pub fn u64_to_string(n: u64) -> (r: String)
    ensures
        r@ == decimal(n as nat),
    decreases n,
{
    let mut r = if n < 10 {
        String::new()
    } else {
        u64_to_string(n / 10)
    };
    r.push(digit_to_char(n % 10));
    assert(n < 10 ==> r@ =~= decimal(n as nat));
    r
}

pub(crate) proof fn lemma_decimal_digits(n: nat)
    ensures
        decimal(n).len() > 0,
        forall|i: int| 0 <= i < decimal(n).len() ==> is_digit(#[trigger] decimal(n)[i]),
        digits_value(decimal(n)) == n,
    decreases n,
{
    if n < 10 {
        assert(decimal(n).drop_last() =~= Seq::<char>::empty());
        assert(digits_value(Seq::<char>::empty()) == 0);
    } else {
        lemma_decimal_digits(n / 10);
        assert(decimal(n).drop_last() =~= decimal(n / 10));
        assert forall|i: int| 0 <= i < decimal(n).len() implies is_digit(
            #[trigger] decimal(n)[i],
        ) by {
            if i < decimal(n / 10).len() {
                assert(decimal(n)[i] == decimal(n / 10)[i]);
            }
        }
    }
}

/// Different numbers have different notations.
pub(crate) proof fn lemma_decimal_injective(a: nat, b: nat)
    requires
        decimal(a) == decimal(b),
    ensures
        a == b,
{
    lemma_decimal_digits(a);
    lemma_decimal_digits(b);
}

/// Reading a number back from its decimal notation gives the number.
pub proof fn law_decimal_reads_back(n: u64)
    ensures
        parsed_u64(decimal(n as nat)) == Some(n),
{
    lemma_decimal_digits(n as nat);
    assert(is_digit(decimal(n as nat)[0]));
}

/// The notation of a number has decimal digits only, does not begin with a
/// zero unless it is the one digit of 0, and goes on with the notation of the
/// last digit.
pub proof fn law_decimal_notation(n: nat, d: nat)
    requires
        d < 10,
    ensures
        decimal(d).len() == 1,
        decimal(d)[0] as int == '0' as int + d,
        n > 0 ==> decimal(10 * n + d) == decimal(n) + decimal(d),
        n > 0 ==> decimal(n)[0] != '0',
    decreases n,
{
    if n > 0 {
        let m = 10 * n + d;
        assert(m / 10 == n && m % 10 == d);
        assert(decimal(n) + decimal(d) =~= decimal(n).push(digit_char(d)));
        if n >= 10 {
            law_decimal_notation(n / 10, n % 10);
            lemma_decimal_digits(n / 10);
            assert(decimal(n)[0] == decimal(n / 10)[0]);
        }
    }
}

proof fn lemma_value_after_zero(s: Seq<char>)
    ensures
        digits_value(seq!['0'] + s) == digits_value(s),
    decreases s.len(),
{
    let t = seq!['0'] + s;
    if s.len() == 0 {
        assert(t.drop_last() =~= Seq::<char>::empty());
        assert(digits_value(Seq::<char>::empty()) == 0);
    } else {
        lemma_value_after_zero(s.drop_last());
        assert(t.drop_last() =~= seq!['0'] + s.drop_last());
        assert(t.last() == s.last());
    }
}

proof fn lemma_notation_of_digits(s: Seq<char>)
    requires
        s.len() > 0,
        forall|i: int| 0 <= i < s.len() ==> is_digit(#[trigger] s[i]),
        s[0] != '0' || s.len() == 1,
    ensures
        decimal(digits_value(s)) == s,
        s[0] != '0' ==> digits_value(s) > 0,
    decreases s.len(),
{
    let rest = s.drop_last();
    let d = (s.last() as int - '0' as int) as nat;
    assert(is_digit(s[s.len() - 1]));
    assert(digits_value(s) == 10 * digits_value(rest) + d);
    if s.len() == 1 {
        assert(rest =~= Seq::<char>::empty());
        assert(digits_value(rest) == 0);
        assert(decimal(d) =~= s);
    } else {
        assert forall|i: int| 0 <= i < rest.len() implies is_digit(#[trigger] rest[i]) by {
            assert(rest[i] == s[i]);
        }
        assert(rest[0] == s[0]);
        lemma_notation_of_digits(rest);
        let n = digits_value(rest);
        assert(decimal(10 * n + d) == decimal(n).push(digit_char(d))) by {
            assert((10 * n + d) / 10 == n && (10 * n + d) % 10 == d);
        }
        assert(rest.push(s.last()) =~= s);
    }
}

/// What reads as a number is its notation: one plus sign before it and zeros
/// before its first digit change nothing; a text with any other character, a
/// text without a digit, and a number that is too great are not read.
pub proof fn law_number_notation(s: Seq<char>, k: int, n: nat)
    ensures
        parsed_u64(Seq::empty()) is None,
        n > u64::MAX ==> parsed_u64(decimal(n)) is None,
        0 < k < s.len() && !is_digit(s[k]) ==> parsed_u64(s) is None,
        s.len() > 0 && !is_digit(s[0]) && s[0] != '+' ==> parsed_u64(s) is None,
        s.len() == 0 || is_digit(s[0]) ==> parsed_u64(seq!['+'] + s) == parsed_u64(s),
        s.len() > 0 && is_digit(s[0]) ==> parsed_u64(seq!['0'] + s) == parsed_u64(s),
        s.len() > 0 && is_digit(s[0]) && s[0] != '0' ==> (parsed_u64(s) matches Some(m) ==> s
            == decimal(m as nat)),
{
    lemma_decimal_digits(n);
    assert(is_digit(decimal(n)[0]));
    let d = unsigned_digits(s);
    if 0 < k < s.len() && !is_digit(s[k]) {
        if s[0] == '+' {
            assert(d[k - 1] == s[k]);
        }
    }
    let plus = seq!['+'] + s;
    assert(plus.skip(1) =~= s);
    if s.len() > 0 && is_digit(s[0]) {
        let zero = seq!['0'] + s;
        lemma_value_after_zero(s);
        assert(zero[0] == '0');
        if forall|i: int| 0 <= i < s.len() ==> is_digit(#[trigger] s[i]) {
            assert forall|i: int| 0 <= i < zero.len() implies is_digit(#[trigger] zero[i]) by {
                if i > 0 {
                    assert(zero[i] == s[i - 1]);
                }
            }
        } else {
            let i = choose|i: int| 0 <= i < s.len() && !is_digit(#[trigger] s[i]);
            assert(zero[i + 1] == s[i]);
        }
        if s[0] != '0' && parsed_u64(s) is Some {
            lemma_notation_of_digits(s);
        }
    }
}

/// Whether `a` and `b` are the same text.
pub fn str_eq(a: &str, b: &str) -> (r: bool)
    ensures
        r == (a@ == b@),
{
    a.to_string() == b.to_string()
}

/// Whether `s` begins with `prefix`.
pub fn starts_with(s: &str, prefix: &str) -> (r: bool)
    ensures
        r == prefix@.is_prefix_of(s@),
{
    let c = to_chars(s);
    let p = to_chars(prefix);
    if p.len() > c.len() {
        return false;
    }
    let mut i: usize = 0;
    while i < p.len()
        invariant
            c@ == s@,
            p@ == prefix@,
            i <= p@.len() <= c@.len(),
            forall|j: int| 0 <= j < i ==> c@[j] == p@[j],
        decreases p.len() - i,
    {
        if c[i] != p[i] {
            assert(s@.subrange(0, prefix@.len() as int)[i as int] != prefix@[i as int]);
            return false;
        }
        i += 1;
    }
    assert(prefix@ =~= s@.subrange(0, prefix@.len() as int));
    true
}

/// Whether `s` ends with `suffix`.
pub fn ends_with(s: &str, suffix: &str) -> (r: bool)
    ensures
        r == suffix@.is_suffix_of(s@),
{
    let c = to_chars(s);
    let p = to_chars(suffix);
    if p.len() > c.len() {
        return false;
    }
    let base: usize = c.len() - p.len();
    let mut i: usize = 0;
    while i < p.len()
        invariant
            c@ == s@,
            p@ == suffix@,
            base + p.len() == c.len(),
            i <= p@.len() <= c@.len(),
            forall|j: int| 0 <= j < i ==> c@[base + j] == p@[j],
        decreases p.len() - i,
    {
        if c[base + i] != p[i] {
            assert(s@.subrange(s@.len() - suffix@.len(), s@.len() as int)[i as int]
                != suffix@[i as int]);
            return false;
        }
        i += 1;
    }
    assert(suffix@ =~= s@.subrange(s@.len() - suffix@.len(), s@.len() as int));
    true
}

/// A list of strings is seen with each of its strings, to the letter.
pub proof fn law_strings_are_seen_as_they_are(list: Seq<String>, i: int, s: String)
    ensures
        views(list).len() == list.len(),
        0 <= i < list.len() ==> views(list)[i] == list[i]@,
        text_view(Some(s)) == Some(s@),
        text_view(None) is None,
{
}

} // verus!
