//! The `key = value` configuration file of the Icecast streamer.

use vstd::prelude::*;
use crate::text::{chars_of, string_from_range};

verus! {

// ---------------------------------------------------------------
// Character classes and trimming
// ---------------------------------------------------------------

/// `char::is_whitespace`: the characters with the Unicode White_Space property.
pub open spec fn is_white_space(c: char) -> bool {
    let u = c as u32;
    ||| 0x09 <= u <= 0x0D
    ||| u == 0x20 || u == 0x85 || u == 0xA0 || u == 0x1680
    ||| 0x2000 <= u <= 0x200A
    ||| u == 0x2028 || u == 0x2029 || u == 0x202F || u == 0x205F || u == 0x3000
}

/// `s` without its leading white space.
pub open spec fn trim_start(s: Seq<char>) -> Seq<char>
    decreases s.len(),
{
    if s.len() > 0 && is_white_space(s[0]) {
        trim_start(s.drop_first())
    } else {
        s
    }
}

/// `s` without its trailing white space.
pub open spec fn trim_end(s: Seq<char>) -> Seq<char>
    decreases s.len(),
{
    if s.len() > 0 && is_white_space(s.last()) {
        trim_end(s.drop_last())
    } else {
        s
    }
}

/// `str::trim`: `s` without leading and trailing white space.
pub open spec fn trim(s: Seq<char>) -> Seq<char> {
    trim_end(trim_start(s))
}

/// Whether `c` has the White_Space property.
pub fn white_space(c: char) -> (r: bool)
    ensures
        r == is_white_space(c),
{
    let u = c as u32;
    (0x09 <= u && u <= 0x0D) || u == 0x20 || u == 0x85 || u == 0xA0 || u == 0x1680
        || (0x2000 <= u && u <= 0x200A) || u == 0x2028 || u == 0x2029 || u == 0x202F
        || u == 0x205F || u == 0x3000
}

/// The bounds of `trim(cs[lo..hi])` inside `cs`.
pub fn trim_range(cs: &[char], lo: usize, hi: usize) -> (r: (usize, usize))
    requires
        lo <= hi <= cs@.len(),
    ensures
        lo <= r.0 <= r.1 <= hi,
        cs@.subrange(r.0 as int, r.1 as int) == trim(cs@.subrange(lo as int, hi as int)),
{
    let mut a = lo;
    while a < hi && white_space(cs[a])
        invariant
            lo <= a <= hi <= cs@.len(),
            trim_start(cs@.subrange(lo as int, hi as int)) == trim_start(
                cs@.subrange(a as int, hi as int),
            ),
        decreases hi - a,
    {
        assert(cs@.subrange(a as int, hi as int).drop_first() =~= cs@.subrange(
            a + 1,
            hi as int,
        ));
        a = a + 1;
    }
    assert(trim_start(cs@.subrange(lo as int, hi as int)) == cs@.subrange(a as int, hi as int));
    let mut b = hi;
    while b > a && white_space(cs[b - 1])
        invariant
            lo <= a <= b <= hi <= cs@.len(),
            trim_end(cs@.subrange(a as int, hi as int)) == trim_end(
                cs@.subrange(a as int, b as int),
            ),
        decreases b - a,
    {
        assert(cs@.subrange(a as int, b as int).drop_last() =~= cs@.subrange(
            a as int,
            b - 1,
        ));
        b = b - 1;
    }
    (a, b)
}

// ---------------------------------------------------------------
// Lines and entries
// ---------------------------------------------------------------

/// `s` cut at every `'\n'`; a text with `n` line feeds has `n + 1` pieces.
///
/// `str::lines` also drops a `'\r'` before a line feed and the empty piece
/// after a final line feed; both are white space or empty, so they vanish
/// under the trimming that every piece goes through before it counts.
pub open spec fn split_lines(s: Seq<char>) -> Seq<Seq<char>>
    decreases s.len(),
{
    if s.len() == 0 {
        seq![Seq::<char>::empty()]
    } else {
        let prev = split_lines(s.drop_last());
        if s.last() == '\n' {
            prev.push(Seq::<char>::empty())
        } else {
            prev.update(prev.len() - 1, prev.last().push(s.last()))
        }
    }
}

/// The position of the first `c` in `s`, if any.
pub open spec fn first_index(s: Seq<char>, c: char) -> Option<int> {
    if exists|k: int| 0 <= k < s.len() && s[k] == c && forall|j: int| 0 <= j < k ==> s[j] != c {
        Some(choose|k: int| 0 <= k < s.len() && s[k] == c && forall|j: int| 0 <= j < k ==> s[j] != c)
    } else {
        None
    }
}

/// The `(key, value)` pair that one line contributes: none for a blank line,
/// a line that starts with `#`, or a line without `=`; otherwise the trimmed
/// text before and after the first `=`.
pub open spec fn line_entry(line: Seq<char>) -> Option<(Seq<char>, Seq<char>)> {
    if trim(line).len() == 0 || (line.len() > 0 && line[0] == '#') {
        None
    } else {
        match first_index(line, '=') {
            None => None,
            Some(k) => Some((trim(line.take(k)), trim(line.skip(k + 1)))),
        }
    }
}

/// The pairs of all `lines`, in order.
pub open spec fn lines_entries(lines: Seq<Seq<char>>) -> Seq<(Seq<char>, Seq<char>)>
    decreases lines.len(),
{
    if lines.len() == 0 {
        seq![]
    } else {
        let prev = lines_entries(lines.drop_last());
        match line_entry(lines.last()) {
            Some(e) => prev.push(e),
            None => prev,
        }
    }
}

/// The pairs of a configuration text, in order.
pub open spec fn config_entries(content: Seq<char>) -> Seq<(Seq<char>, Seq<char>)> {
    lines_entries(split_lines(content))
}

/// The value of `key`: that of its last pair, as a map filled in order keeps.
pub open spec fn lookup(entries: Seq<(Seq<char>, Seq<char>)>, key: Seq<char>) -> Option<Seq<char>>
    decreases entries.len(),
{
    if entries.len() == 0 {
        None
    } else if entries.last().0 == key {
        Some(entries.last().1)
    } else {
        lookup(entries.drop_last(), key)
    }
}

proof fn lemma_trim_start_skips(s: Seq<char>, i: int)
    requires
        0 <= i < s.len(),
        !is_white_space(s[i]),
    ensures
        exists|d: int| 0 <= d <= i && trim_start(s) == s.skip(d),
    decreases s.len(),
{
    if is_white_space(s[0]) {
        lemma_trim_start_skips(s.drop_first(), i - 1);
        let d = choose|d: int| 0 <= d <= i - 1 && trim_start(s.drop_first()) == s.drop_first().skip(d);
        assert(s.drop_first().skip(d) =~= s.skip(d + 1));
    } else {
        assert(s.skip(0) =~= s);
    }
}

proof fn lemma_trim_end_takes(s: Seq<char>, i: int)
    requires
        0 <= i < s.len(),
        !is_white_space(s[i]),
    ensures
        exists|t: int| i < t <= s.len() && trim_end(s) == s.take(t),
    decreases s.len(),
{
    if is_white_space(s.last()) {
        assert(s.drop_last()[i] == s[i]);
        lemma_trim_end_takes(s.drop_last(), i);
        let t = choose|t: int| i < t <= s.len() - 1 && trim_end(s.drop_last()) == s.drop_last().take(t);
        assert(s.drop_last().take(t) =~= s.take(t));
    } else {
        assert(s.take(s.len() as int) =~= s);
    }
}

/// A text that holds a character other than white space does not trim to nothing.
proof fn lemma_trim_not_empty(s: Seq<char>, i: int)
    requires
        0 <= i < s.len(),
        !is_white_space(s[i]),
    ensures
        trim(s).len() > 0,
{
    lemma_trim_start_skips(s, i);
    let d = choose|d: int| 0 <= d <= i && trim_start(s) == s.skip(d);
    let u = s.skip(d);
    assert(u[i - d] == s[i]);
    lemma_trim_end_takes(u, i - d);
}

/// A text that neither starts nor ends with white space trims to itself.
proof fn lemma_trim_unchanged(s: Seq<char>)
    requires
        s.len() == 0 || (!is_white_space(s[0]) && !is_white_space(s.last())),
    ensures
        trim(s) == s,
{
}

proof fn lemma_split_lines_append(s: Seq<char>, t: Seq<char>)
    requires
        forall|i: int| 0 <= i < t.len() ==> t[i] != '\n',
    ensures
        split_lines(s + seq!['\n'] + t) == split_lines(s).push(t),
    decreases t.len(),
{
    let whole = s + seq!['\n'] + t;
    if t.len() == 0 {
        assert(whole.drop_last() =~= s);
        assert(whole.last() == '\n');
        assert(t =~= Seq::<char>::empty());
    } else {
        assert(t.last() != '\n');
        let t0 = t.drop_last();
        lemma_split_lines_append(s, t0);
        assert(whole.drop_last() =~= s + seq!['\n'] + t0);
        assert(whole.last() == t.last());
        assert(t0.push(t.last()) =~= t);
        let prev = split_lines(s + seq!['\n'] + t0);
        assert(prev.update(prev.len() - 1, prev.last().push(whole.last())) =~= split_lines(s).push(t));
    }
}

/// The separator of a written pair: ` = `.
pub open spec fn pair_separator() -> Seq<char> {
    seq![' ', '=', ' ']
}

proof fn lemma_pair_line_entry(k: Seq<char>, v: Seq<char>)
    requires
        forall|i: int| 0 <= i < k.len() ==> k[i] != '=',
        k.len() == 0 || (k[0] != '#' && !is_white_space(k[0]) && !is_white_space(k.last())),
        v.len() == 0 || (!is_white_space(v[0]) && !is_white_space(v.last())),
    ensures
        line_entry(k + pair_separator() + v) == Some((k, v)),
{
    let sep = pair_separator();
    let line = k + sep + v;
    let n = k.len() as int;
    assert(line[n] == ' ' && line[n + 1] == '=' && line[n + 2] == ' ');
    lemma_trim_not_empty(line, n + 1);
    if n == 0 {
        assert(line[0] == ' ');
    } else {
        assert(line[0] == k[0]);
    }
    assert forall|j: int| 0 <= j < n + 1 implies line[j] != '=' by {
        if j < n {
            assert(line[j] == k[j]);
        }
    }
    assert(first_index(line, '=') == Some(n + 1)) by {
        let c = choose|x: int| 0 <= x < line.len() && line[x] == '=' && forall|j: int| 0 <= j < x ==> line[j] != '=';
        assert(!(c < n + 1));
        assert(!(n + 1 < c));
    }
    let key_part = line.take(n + 1);
    assert(key_part =~= k.push(' '));
    if n == 0 {
        assert(k.push(' ').drop_first() =~= k);
        assert(trim_start(k.push(' ')) == trim_start(k));
    } else {
        assert(k.push(' ')[0] == k[0]);
        assert(k.push(' ').drop_last() =~= k);
    }
    lemma_trim_unchanged(k);
    assert(trim(key_part) == k);
    let value_part = line.skip(n + 2);
    assert(value_part =~= seq![' '] + v);
    assert(value_part.drop_first() =~= v);
    lemma_trim_unchanged(v);
    assert(trim(value_part) == v);
}

/// A line `k = v` sets key `k` to value `v`, whatever characters (such as
/// `#`) the value holds: only a line whose first character is `#` is a
/// comment, and the value is all that follows the first `=`, trimmed. When
/// such a line is the last one of a text, the text gives `v` for `k`.
pub proof fn lemma_pair_line(before: Seq<char>, k: Seq<char>, v: Seq<char>)
    requires
        forall|i: int| 0 <= i < k.len() ==> k[i] != '=' && k[i] != '\n',
        forall|i: int| 0 <= i < v.len() ==> v[i] != '\n',
        k.len() == 0 || (k[0] != '#' && !is_white_space(k[0]) && !is_white_space(k.last())),
        v.len() == 0 || (!is_white_space(v[0]) && !is_white_space(v.last())),
    ensures
        line_entry(k + pair_separator() + v) == Some((k, v)),
        lookup(config_entries(before + seq!['\n'] + (k + pair_separator() + v)), k) == Some(v),
{
    let line = k + pair_separator() + v;
    let n = k.len() as int;
    lemma_pair_line_entry(k, v);
    assert forall|i: int| 0 <= i < line.len() implies line[i] != '\n' by {
        if i < n {
            assert(line[i] == k[i]);
        } else if i >= n + 3 {
            assert(line[i] == v[i - n - 3]);
        }
    }
    lemma_split_lines_append(before, line);
    let lines = split_lines(before).push(line);
    assert(lines.drop_last() =~= split_lines(before));
    assert(lines.last() == line);
}

/// A pair stored as positions in the text: key `[.0, .1)`, value `[.2, .3)`.
pub type EntryBounds = (usize, usize, usize, usize);

/// The pairs that a list of positions stands for.
pub open spec fn bounds_view(cs: Seq<char>, es: Seq<EntryBounds>) -> Seq<(Seq<char>, Seq<char>)> {
    es.map_values(|e: EntryBounds| (cs.subrange(e.0 as int, e.1 as int), cs.subrange(e.2 as int, e.3 as int)))
}

pub open spec fn bounds_within(cs: Seq<char>, e: EntryBounds) -> bool {
    e.0 <= e.1 <= cs.len() && e.2 <= e.3 <= cs.len()
}

/// The pair of the line `cs[a..b]`, as positions.
fn entry_of_line(cs: &[char], a: usize, b: usize) -> (r: Option<EntryBounds>)
    requires
        a <= b <= cs@.len(),
    ensures
        match r {
            None => line_entry(cs@.subrange(a as int, b as int)) is None,
            Some(e) => bounds_within(cs@, e) && line_entry(cs@.subrange(a as int, b as int))
                == Some((cs@.subrange(e.0 as int, e.1 as int), cs@.subrange(e.2 as int, e.3 as int))),
        },
{
    let ghost line = cs@.subrange(a as int, b as int);
    let (ta, tb) = trim_range(cs, a, b);
    if ta == tb {
        return None;
    }
    if a < b && cs[a] == '#' {
        return None;
    }
    let mut k = a;
    while k < b && cs[k] != '='
        invariant
            a <= k <= b <= cs@.len(),
            forall|j: int| a <= j < k ==> cs@[j] != '=',
        decreases b - k,
    {
        k = k + 1;
    }
    if k == b {
        assert(first_index(line, '=') is None) by {
            assert forall|x: int| 0 <= x < line.len() implies line[x] != '=' by {
                assert(line[x] == cs@[a + x]);
            }
        }
        return None;
    }
    let ghost kk = (k - a) as int;
    assert(line[kk] == '=' && forall|j: int| 0 <= j < kk ==> line[j] != '=');
    assert(first_index(line, '=') == Some(kk)) by {
        let c = choose|x: int| 0 <= x < line.len() && line[x] == '=' && forall|j: int| 0 <= j < x ==> line[j] != '=';
        assert(!(c < kk));
        assert(!(kk < c));
    }
    assert(line.take(kk) =~= cs@.subrange(a as int, k as int));
    assert(line.skip(kk + 1) =~= cs@.subrange(k + 1, b as int));
    let (ks, ke) = trim_range(cs, a, k);
    let (vs, ve) = trim_range(cs, k + 1, b);
    Some((ks, ke, vs, ve))
}

/// The pairs of the configuration text `cs`, as positions.
pub fn collect_entries(cs: &[char]) -> (es: Vec<EntryBounds>)
    ensures
        bounds_view(cs@, es@) == config_entries(cs@),
        forall|i: int| 0 <= i < es@.len() ==> bounds_within(cs@, #[trigger] es@[i]),
{
    let n = cs.len();
    let mut es: Vec<EntryBounds> = Vec::new();
    let mut start: usize = 0;
    let mut i: usize = 0;
    proof {
        assert(cs@.take(0) =~= Seq::<char>::empty());
    }
    while i < n
        invariant
            n == cs@.len(),
            start <= i <= n,
            split_lines(cs@.take(i as int)).len() >= 1,
            split_lines(cs@.take(i as int)).last() == cs@.subrange(start as int, i as int),
            bounds_view(cs@, es@) == lines_entries(split_lines(cs@.take(i as int)).drop_last()),
            forall|j: int| 0 <= j < es@.len() ==> bounds_within(cs@, #[trigger] es@[j]),
        decreases n - i,
    {
        let ghost prev = split_lines(cs@.take(i as int));
        assert(cs@.take(i + 1).drop_last() =~= cs@.take(i as int));
        assert(cs@.take(i + 1).last() == cs@[i as int]);
        if cs[i] == '\n' {
            let ghost old_es = es@;
            let e = entry_of_line(cs, start, i);
            assert(prev.drop_last().push(prev.last()) =~= prev);
            assert(split_lines(cs@.take(i + 1)).drop_last() =~= prev);
            match e {
                Some(b) => {
                    es.push(b);
                    assert(bounds_view(cs@, es@) =~= bounds_view(cs@, old_es).push(
                        (cs@.subrange(b.0 as int, b.1 as int), cs@.subrange(b.2 as int, b.3 as int)),
                    ));
                },
                None => {},
            }
            start = i + 1;
            assert(cs@.subrange(start as int, i + 1) =~= Seq::<char>::empty());
        } else {
            let ghost next = split_lines(cs@.take(i + 1));
            assert(next.drop_last() =~= prev.drop_last());
            assert(cs@.subrange(start as int, i + 1) =~= cs@.subrange(start as int, i as int).push(
                cs@[i as int],
            ));
        }
        i = i + 1;
    }
    assert(cs@.take(n as int) =~= cs@);
    let ghost lines = split_lines(cs@);
    assert(lines.drop_last().push(lines.last()) =~= lines);
    let ghost old_es = es@;
    let e = entry_of_line(cs, start, n);
    match e {
        Some(b) => {
            es.push(b);
            assert(bounds_view(cs@, es@) =~= bounds_view(cs@, old_es).push(
                (cs@.subrange(b.0 as int, b.1 as int), cs@.subrange(b.2 as int, b.3 as int)),
            ));
        },
        None => {},
    }
    es
}

/// Whether `cs[lo..hi]` holds exactly the characters of `key`.
fn range_equals(cs: &[char], lo: usize, hi: usize, key: &[char]) -> (r: bool)
    requires
        lo <= hi <= cs@.len(),
    ensures
        r == (cs@.subrange(lo as int, hi as int) == key@),
{
    if hi - lo != key.len() {
        return false;
    }
    let mut i: usize = 0;
    while i < key.len()
        invariant
            hi - lo == key@.len(),
            lo <= hi <= cs@.len(),
            forall|j: int| 0 <= j < i ==> cs@[lo + j] == key@[j],
        decreases key.len() - i,
    {
        if cs[lo + i] != key[i] {
            assert(cs@.subrange(lo as int, hi as int)[i as int] != key@[i as int]);
            return false;
        }
        i = i + 1;
    }
    assert(cs@.subrange(lo as int, hi as int) =~= key@);
    true
}

/// The value that the last pair with key `key` gives, as positions.
fn find_value(cs: &[char], es: &Vec<EntryBounds>, key: &str) -> (r: Option<(usize, usize)>)
    requires
        forall|i: int| 0 <= i < es@.len() ==> bounds_within(cs@, #[trigger] es@[i]),
    ensures
        match r {
            None => lookup(bounds_view(cs@, es@), key@) is None,
            Some(v) => v.0 <= v.1 <= cs@.len() && lookup(bounds_view(cs@, es@), key@) == Some(
                cs@.subrange(v.0 as int, v.1 as int),
            ),
        },
{
    let key_chars = chars_of(key);
    let mut i = es.len();
    assert(es@.take(i as int) =~= es@);
    while i > 0
        invariant
            i <= es@.len(),
            forall|j: int| 0 <= j < es@.len() ==> bounds_within(cs@, #[trigger] es@[j]),
            lookup(bounds_view(cs@, es@), key@) == lookup(bounds_view(cs@, es@.take(i as int)), key@),
            key_chars@ == key@,
        decreases i,
    {
        let e = es[i - 1];
        let ghost pre = bounds_view(cs@, es@.take(i as int));
        assert(pre.drop_last() =~= bounds_view(cs@, es@.take(i - 1)));
        assert(bounds_within(cs@, es@[i - 1]));
        if range_equals(cs, e.0, e.1, key_chars.as_slice()) {
            return Some((e.2, e.3));
        }
        i = i - 1;
    }
    None
}

// ---------------------------------------------------------------
// Unsigned numbers
// ---------------------------------------------------------------

pub open spec fn is_digit(c: char) -> bool {
    '0' <= c <= '9'
}

pub open spec fn all_digits(s: Seq<char>) -> bool {
    forall|i: int| 0 <= i < s.len() ==> is_digit(#[trigger] s[i])
}

/// The number that the decimal digits `s` spell.
pub open spec fn digits_value(s: Seq<char>) -> nat
    decreases s.len(),
{
    if s.len() == 0 {
        0
    } else {
        digits_value(s.drop_last()) * 10 + (s.last() as nat - 48) as nat
    }
}

/// `str::parse` for an unsigned integer type whose largest value is `max`:
/// an optional `+` followed by one or more ASCII digits, of value at most `max`.
pub open spec fn parse_unsigned(s: Seq<char>, max: nat) -> Option<nat> {
    let digits = if s.len() > 0 && s[0] == '+' { s.drop_first() } else { s };
    if digits.len() > 0 && all_digits(digits) && digits_value(digits) <= max {
        Some(digits_value(digits))
    } else {
        None
    }
}

proof fn lemma_digits_value_prefix(s: Seq<char>, j: int)
    requires
        all_digits(s),
        0 <= j <= s.len(),
    ensures
        digits_value(s.take(j)) <= digits_value(s),
    decreases s.len(),
{
    if j < s.len() {
        assert(all_digits(s.drop_last()));
        lemma_digits_value_prefix(s.drop_last(), j);
        assert(s.drop_last().take(j) =~= s.take(j));
    } else {
        assert(s.take(j) =~= s);
    }
}

/// Parses `cs[lo..hi]` as an unsigned number of at most `max`.
fn parse_unsigned_range(cs: &[char], lo: usize, hi: usize, max: u64) -> (r: Option<u64>)
    requires
        lo <= hi <= cs@.len(),
    ensures
        match r {
            Some(v) => parse_unsigned(cs@.subrange(lo as int, hi as int), max as nat) == Some(v as nat),
            None => parse_unsigned(cs@.subrange(lo as int, hi as int), max as nat) is None,
        },
{
    let ghost s = cs@.subrange(lo as int, hi as int);
    let mut start = lo;
    if lo < hi && cs[lo] == '+' {
        start = lo + 1;
    }
    let ghost digits = cs@.subrange(start as int, hi as int);
    assert(digits =~= (if s.len() > 0 && s[0] == '+' { s.drop_first() } else { s }));
    if start == hi {
        return None;
    }
    let mut v: u64 = 0;
    let mut i = start;
    while i < hi
        invariant
            lo <= start <= i <= hi <= cs@.len(),
            digits == cs@.subrange(start as int, hi as int),
            s == cs@.subrange(lo as int, hi as int),
            digits == (if s.len() > 0 && s[0] == '+' { s.drop_first() } else { s }),
            v as nat == digits_value(cs@.subrange(start as int, i as int)),
            v <= max,
            all_digits(cs@.subrange(start as int, i as int)),
        decreases hi - i,
    {
        let c = cs[i];
        let ghost pre = cs@.subrange(start as int, i as int);
        let ghost next = cs@.subrange(start as int, i + 1);
        assert(next.drop_last() =~= pre);
        assert(next.take(i + 1 - start) =~= next);
        assert(digits.take(i + 1 - start) =~= next);
        if !('0' <= c && c <= '9') {
            assert(!is_digit(digits[i - start]));
            return None;
        }
        let d = (c as u32 - 48) as u64;
        assert(d as nat == (next.last() as nat - 48) as nat);
        if d > max || v > (max - d) / 10 {
            proof {
                if d <= max {
                    assert(v * 10 + d > max) by (nonlinear_arith)
                        requires
                            v > (max - d) / 10,
                            d <= max,
                    {
                    }
                }
                if all_digits(digits) {
                    lemma_digits_value_prefix(digits, i + 1 - start);
                }
            }
            return None;
        }
        proof {
            assert(v * 10 + d <= max) by (nonlinear_arith)
                requires
                    v <= (max - d) / 10,
                    d <= max,
            {
            }
        }
        v = v * 10 + d;
        i = i + 1;
    }
    Some(v)
}

// ---------------------------------------------------------------
// The configuration
// ---------------------------------------------------------------

/// Where and how to stream, and which folders the playlist draws from.
pub struct Config {
    pub host: String,
    pub port: u16,
    pub mount: String,
    pub password: String,
    pub name: String,
    pub bitrate: u64,
    pub folder_truck_e: String,
    pub folder_truck_1: String,
    pub folder_truck_3: String,
    pub folder_options: String,
}

/// A configuration as a mathematical value.
pub struct ConfigSpec {
    pub host: Seq<char>,
    pub port: u16,
    pub mount: Seq<char>,
    pub password: Seq<char>,
    pub name: Seq<char>,
    pub bitrate: u64,
    pub folder_truck_e: Seq<char>,
    pub folder_truck_1: Seq<char>,
    pub folder_truck_3: Seq<char>,
    pub folder_options: Seq<char>,
}

impl View for Config {
    type V = ConfigSpec;

    open spec fn view(&self) -> ConfigSpec {
        ConfigSpec {
            host: self.host@,
            port: self.port,
            mount: self.mount@,
            password: self.password@,
            name: self.name@,
            bitrate: self.bitrate,
            folder_truck_e: self.folder_truck_e@,
            folder_truck_1: self.folder_truck_1@,
            folder_truck_3: self.folder_truck_3@,
            folder_options: self.folder_options@,
        }
    }
}

/// Why a configuration text was refused.
#[derive(Debug)]
pub enum ConfigError {
    /// No line sets this key.
    MissingKey(String),
    /// The value of `port` is not a number from 0 to 65535.
    InvalidPort,
    /// The value of `bitrate` is not a 64-bit unsigned number.
    InvalidBitrate,
}

/// A refusal as a mathematical value.
pub enum ConfigFault {
    MissingKey(Seq<char>),
    InvalidPort,
    InvalidBitrate,
}

impl View for ConfigError {
    type V = ConfigFault;

    open spec fn view(&self) -> ConfigFault {
        match self {
            ConfigError::MissingKey(k) => ConfigFault::MissingKey(k@),
            ConfigError::InvalidPort => ConfigFault::InvalidPort,
            ConfigError::InvalidBitrate => ConfigFault::InvalidBitrate,
        }
    }
}

/// The configuration that a text describes, or the first fault in the order
/// host, port, mount, password, name, bitrate, and the four folders.
pub open spec fn config_from_text(content: Seq<char>) -> Result<ConfigSpec, ConfigFault> {
    let es = config_entries(content);
    if lookup(es, "host"@) is None {
        Err(ConfigFault::MissingKey("host"@))
    } else if lookup(es, "port"@) is None {
        Err(ConfigFault::MissingKey("port"@))
    } else if parse_unsigned(lookup(es, "port"@)->0, 0xffff) is None {
        Err(ConfigFault::InvalidPort)
    } else if lookup(es, "mount"@) is None {
        Err(ConfigFault::MissingKey("mount"@))
    } else if lookup(es, "password"@) is None {
        Err(ConfigFault::MissingKey("password"@))
    } else if lookup(es, "name"@) is None {
        Err(ConfigFault::MissingKey("name"@))
    } else if lookup(es, "bitrate"@) is None {
        Err(ConfigFault::MissingKey("bitrate"@))
    } else if parse_unsigned(lookup(es, "bitrate"@)->0, 0xffff_ffff_ffff_ffff) is None {
        Err(ConfigFault::InvalidBitrate)
    } else if lookup(es, "folders_truck_e"@) is None {
        Err(ConfigFault::MissingKey("folders_truck_e"@))
    } else if lookup(es, "folders_truck_1"@) is None {
        Err(ConfigFault::MissingKey("folders_truck_1"@))
    } else if lookup(es, "folders_truck_3"@) is None {
        Err(ConfigFault::MissingKey("folders_truck_3"@))
    } else if lookup(es, "folders_options"@) is None {
        Err(ConfigFault::MissingKey("folders_options"@))
    } else {
        Ok(
            ConfigSpec {
                host: lookup(es, "host"@)->0,
                port: parse_unsigned(lookup(es, "port"@)->0, 0xffff)->0 as u16,
                mount: lookup(es, "mount"@)->0,
                password: lookup(es, "password"@)->0,
                name: lookup(es, "name"@)->0,
                bitrate: parse_unsigned(lookup(es, "bitrate"@)->0, 0xffff_ffff_ffff_ffff)->0 as u64,
                folder_truck_e: lookup(es, "folders_truck_e"@)->0,
                folder_truck_1: lookup(es, "folders_truck_1"@)->0,
                folder_truck_3: lookup(es, "folders_truck_3"@)->0,
                folder_options: lookup(es, "folders_options"@)->0,
            },
        )
    }
}

/// The value of a key that must be present, as positions.
fn required(cs: &[char], es: &Vec<EntryBounds>, key: &str) -> (r: Result<(usize, usize), ConfigError>)
    requires
        forall|i: int| 0 <= i < es@.len() ==> bounds_within(cs@, #[trigger] es@[i]),
    ensures
        match r {
            Ok(v) => v.0 <= v.1 <= cs@.len() && lookup(bounds_view(cs@, es@), key@) == Some(
                cs@.subrange(v.0 as int, v.1 as int),
            ),
            Err(e) => lookup(bounds_view(cs@, es@), key@) is None && e@ == ConfigFault::MissingKey(key@),
        },
{
    match find_value(cs, es, key) {
        Some(v) => Ok(v),
        None => Err(ConfigError::MissingKey(key.to_owned())),
    }
}

/// Reads a configuration from its text: one `key = value` per line, blank
/// lines and lines that start with `#` ignored, the last value of a key kept.
pub fn parse_config(content: &str) -> (r: Result<Config, ConfigError>)
    ensures
        match r {
            Ok(c) => config_from_text(content@) == Ok::<ConfigSpec, ConfigFault>(c@),
            Err(e) => config_from_text(content@) == Err::<ConfigSpec, ConfigFault>(e@),
        },
{
    let cs = chars_of(content);
    let cs = cs.as_slice();
    let es = collect_entries(cs);
    let ghost entries = config_entries(content@);
    let (a, b) = match required(cs, &es, "host") { Ok(v) => v, Err(e) => return Err(e) };
    let host = string_from_range(cs, a, b);
    let (a, b) = match required(cs, &es, "port") { Ok(v) => v, Err(e) => return Err(e) };
    let port = match parse_unsigned_range(cs, a, b, 0xffff) {
        Some(v) => v as u16,
        None => return Err(ConfigError::InvalidPort),
    };
    let (a, b) = match required(cs, &es, "mount") { Ok(v) => v, Err(e) => return Err(e) };
    let mount = string_from_range(cs, a, b);
    let (a, b) = match required(cs, &es, "password") { Ok(v) => v, Err(e) => return Err(e) };
    let password = string_from_range(cs, a, b);
    let (a, b) = match required(cs, &es, "name") { Ok(v) => v, Err(e) => return Err(e) };
    let name = string_from_range(cs, a, b);
    let (a, b) = match required(cs, &es, "bitrate") { Ok(v) => v, Err(e) => return Err(e) };
    let bitrate = match parse_unsigned_range(cs, a, b, 0xffff_ffff_ffff_ffff) {
        Some(v) => v,
        None => return Err(ConfigError::InvalidBitrate),
    };
    let (a, b) = match required(cs, &es, "folders_truck_e") { Ok(v) => v, Err(e) => return Err(e) };
    let folder_truck_e = string_from_range(cs, a, b);
    let (a, b) = match required(cs, &es, "folders_truck_1") { Ok(v) => v, Err(e) => return Err(e) };
    let folder_truck_1 = string_from_range(cs, a, b);
    let (a, b) = match required(cs, &es, "folders_truck_3") { Ok(v) => v, Err(e) => return Err(e) };
    let folder_truck_3 = string_from_range(cs, a, b);
    let (a, b) = match required(cs, &es, "folders_options") { Ok(v) => v, Err(e) => return Err(e) };
    let folder_options = string_from_range(cs, a, b);
    Ok(
        Config {
            host,
            port,
            mount,
            password,
            name,
            bitrate,
            folder_truck_e,
            folder_truck_1,
            folder_truck_3,
            folder_options,
        },
    )
}

} // verus!
