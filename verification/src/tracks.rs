//! Which directory entries are MP3 tracks, in what order they are listed,
//! and what title a track shows.

use vstd::prelude::*;
use vstd::string::StringExecFns;
use crate::text::{chars_of, string_from_range};

verus! {

// ---------------------------------------------------------------
// File names
// ---------------------------------------------------------------

/// The position of the last `.` in `name`, if any.
pub open spec fn last_dot(name: Seq<char>) -> Option<int>
    decreases name.len(),
{
    if name.len() == 0 {
        None
    } else if name.last() == '.' {
        Some(name.len() - 1)
    } else {
        last_dot(name.drop_last())
    }
}

/// `Path::extension` of a file name: the text after its last `.`, unless
/// the name has no `.`, starts with its only `.`, or is `..`.
pub open spec fn extension(name: Seq<char>) -> Option<Seq<char>> {
    if name == seq!['.', '.'] {
        None
    } else {
        match last_dot(name) {
            Some(k) => if k > 0 { Some(name.skip(k + 1)) } else { None },
            None => None,
        }
    }
}

/// `Path::file_stem` of a file name: the text before its last `.`, or the
/// whole name where `extension` finds none.
pub open spec fn stem(name: Seq<char>) -> Seq<char> {
    if name == seq!['.', '.'] {
        name
    } else {
        match last_dot(name) {
            Some(k) => if k > 0 { name.take(k) } else { name },
            None => name,
        }
    }
}

/// `char::to_ascii_lowercase`.
pub open spec fn ascii_lower(c: char) -> char {
    if 'A' <= c <= 'Z' {
        ((c as u32) + 32) as char
    } else {
        c
    }
}

/// `str::eq_ignore_ascii_case`.
pub open spec fn eq_ignore_ascii_case(a: Seq<char>, b: Seq<char>) -> bool {
    a.len() == b.len() && forall|i: int| 0 <= i < a.len() ==> ascii_lower(#[trigger] a[i]) == ascii_lower(b[i])
}

/// Whether a file name has the extension `mp3`, in any letter case.
pub open spec fn is_mp3_name(name: Seq<char>) -> bool {
    match extension(name) {
        Some(e) => eq_ignore_ascii_case(e, seq!['m', 'p', '3']),
        None => false,
    }
}

/// The position of the last `.` in `cs`.
fn find_last_dot(cs: &[char]) -> (r: Option<usize>)
    ensures
        match r {
            Some(k) => last_dot(cs@) == Some(k as int) && k < cs@.len(),
            None => last_dot(cs@) is None,
        },
{
    let mut i = cs.len();
    assert(cs@.take(i as int) =~= cs@);
    while i > 0
        invariant
            i <= cs@.len(),
            last_dot(cs@) == last_dot(cs@.take(i as int)),
        decreases i,
    {
        assert(cs@.take(i as int).drop_last() =~= cs@.take(i - 1));
        if cs[i - 1] == '.' {
            return Some(i - 1);
        }
        i = i - 1;
    }
    None
}

fn is_double_dot(cs: &[char]) -> (r: bool)
    ensures
        r == (cs@ == seq!['.', '.']),
{
    let r = cs.len() == 2 && cs[0] == '.' && cs[1] == '.';
    proof {
        if r {
            assert(cs@ =~= seq!['.', '.']);
        }
        if cs@ == seq!['.', '.'] {
            assert(cs@[0] == '.' && cs@[1] == '.');
        }
    }
    r
}

fn lower(c: char) -> (r: char)
    ensures
        r == ascii_lower(c),
{
    if 'A' <= c && c <= 'Z' {
        ((c as u32 + 32) as u8) as char
    } else {
        c
    }
}

/// Whether the file name `name` has the extension `mp3`, in any letter case.
pub fn has_mp3_extension(name: &str) -> (r: bool)
    ensures
        r == is_mp3_name(name@),
{
    let cs = chars_of(name);
    let cs = cs.as_slice();
    if is_double_dot(cs) {
        return false;
    }
    match find_last_dot(cs) {
        None => false,
        Some(k) => {
            if k == 0 {
                return false;
            }
            let n = cs.len();
            let ghost e = cs@.skip(k + 1);
            if n - (k + 1) != 3 {
                return false;
            }
            let r = lower(cs[k + 1]) == 'm' && lower(cs[k + 2]) == 'p' && lower(cs[k + 3]) == '3';
            proof {
                assert(e[0] == cs@[k + 1] && e[1] == cs@[k + 2] && e[2] == cs@[k + 3]);
                let m = seq!['m', 'p', '3'];
                if r {
                    assert forall|i: int| 0 <= i < e.len() implies ascii_lower(#[trigger] e[i]) == ascii_lower(m[i]) by {
                        assert(i == 0 || i == 1 || i == 2);
                    }
                } else {
                    assert(!(ascii_lower(e[0]) == ascii_lower(m[0]) && ascii_lower(e[1]) == ascii_lower(m[1])
                        && ascii_lower(e[2]) == ascii_lower(m[2])));
                }
            }
            r
        },
    }
}

/// The title a track shows: the stem of its file name, or `Unknown` where
/// the name cannot be had.
pub open spec fn title_text(file_name: Option<Seq<char>>) -> Seq<char> {
    match file_name {
        Some(n) => stem(n),
        None => "Unknown"@,
    }
}

/// The title of the track whose file name is `file_name`.
pub fn track_title(file_name: Option<&str>) -> (r: String)
    ensures
        r@ == title_text(match file_name { Some(n) => Some(n@), None => None }),
{
    match file_name {
        None => "Unknown".to_owned(),
        Some(name) => {
            let cs = chars_of(name);
            let cs = cs.as_slice();
            if is_double_dot(cs) {
                return name.to_owned();
            }
            match find_last_dot(cs) {
                Some(k) => {
                    if k > 0 {
                        string_from_range(cs, 0, k)
                    } else {
                        name.to_owned()
                    }
                },
                None => name.to_owned(),
            }
        },
    }
}

/// The title announced while a track plays.
pub fn now_playing(title: &str) -> (r: String)
    ensures
        r@ == "Currently playing: "@ + title@,
{
    let mut r = "Currently playing: ".to_owned();
    r.append(title);
    r
}

// ---------------------------------------------------------------
// Listing order
// ---------------------------------------------------------------

/// The order of `str` (and of paths in one folder): lexicographic by
/// character, a proper prefix first.
pub open spec fn chars_less(a: Seq<char>, b: Seq<char>) -> bool
    decreases a.len(),
{
    if a.len() == 0 {
        b.len() > 0
    } else if b.len() == 0 {
        false
    } else if a[0] != b[0] {
        a[0] < b[0]
    } else {
        chars_less(a.drop_first(), b.drop_first())
    }
}

/// No name comes before itself.
pub proof fn lemma_chars_less_irreflexive(a: Seq<char>)
    ensures
        !chars_less(a, a),
    decreases a.len(),
{
    if a.len() > 0 {
        lemma_chars_less_irreflexive(a.drop_first());
    }
}

/// The order is transitive.
pub proof fn lemma_chars_less_transitive(a: Seq<char>, b: Seq<char>, c: Seq<char>)
    requires
        chars_less(a, b),
        chars_less(b, c),
    ensures
        chars_less(a, c),
    decreases a.len(),
{
    if a.len() > 0 && b.len() > 0 && c.len() > 0 && a[0] == b[0] && b[0] == c[0] {
        lemma_chars_less_transitive(a.drop_first(), b.drop_first(), c.drop_first());
    }
}

/// Of two different names, one comes first.
pub proof fn lemma_chars_less_total(a: Seq<char>, b: Seq<char>)
    requires
        a != b,
    ensures
        chars_less(a, b) || chars_less(b, a),
    decreases a.len(),
{
    if a.len() > 0 && b.len() > 0 && a[0] == b[0] {
        if a.drop_first() == b.drop_first() {
            assert(a =~= seq![a[0]] + a.drop_first());
            assert(b =~= seq![b[0]] + b.drop_first());
        }
        lemma_chars_less_total(a.drop_first(), b.drop_first());
    } else if a.len() == 0 && b.len() == 0 {
        assert(a =~= b);
    }
}

/// Entry `i` is listed before entry `j`: by name, and by position among equal names.
pub open spec fn listed_before(names: Seq<Seq<char>>, i: usize, j: usize) -> bool {
    chars_less(names[i as int], names[j as int]) || (names[i as int] == names[j as int] && i < j)
}

/// The positions of the entries with an `mp3` extension, in directory order.
pub open spec fn mp3_positions(names: Seq<Seq<char>>) -> Seq<usize>
    decreases names.len(),
{
    if names.len() == 0 {
        Seq::empty()
    } else if is_mp3_name(names.last()) {
        mp3_positions(names.drop_last()).push((names.len() - 1) as usize)
    } else {
        mp3_positions(names.drop_last())
    }
}

/// The names of `names`, as character sequences.
pub open spec fn names_view(names: Seq<String>) -> Seq<Seq<char>> {
    names.map_values(|s: String| s@)
}

/// `order` lists its entries strictly in listing order.
pub open spec fn in_listing_order(names: Seq<Seq<char>>, order: Seq<usize>) -> bool {
    forall|a: int, b: int| 0 <= a < b < order.len() ==> listed_before(names, #[trigger] order[a], #[trigger] order[b])
}

/// The position of each name in `names` as characters.
fn names_chars(names: &[String]) -> (r: Vec<Vec<char>>)
    ensures
        r@.len() == names@.len(),
        forall|i: int| 0 <= i < r@.len() ==> #[trigger] r@[i]@ == names@[i]@,
{
    let mut r: Vec<Vec<char>> = Vec::new();
    let mut i: usize = 0;
    while i < names.len()
        invariant
            i <= names@.len(),
            r@.len() == i,
            forall|k: int| 0 <= k < i ==> #[trigger] r@[k]@ == names@[k]@,
        decreases names@.len() - i,
    {
        r.push(chars_of(names[i].as_str()));
        i = i + 1;
    }
    r
}

/// Whether `a` comes before `b` in the order of `str`.
fn chars_before(a: &[char], b: &[char]) -> (r: bool)
    ensures
        r == chars_less(a@, b@),
{
    let mut i: usize = 0;
    assert(a@.skip(0) =~= a@);
    assert(b@.skip(0) =~= b@);
    loop
        invariant
            i <= a@.len(),
            i <= b@.len(),
            chars_less(a@, b@) == chars_less(a@.skip(i as int), b@.skip(i as int)),
        decreases a@.len() - i,
    {
        if i == a.len() {
            return i < b.len();
        }
        if i == b.len() {
            return false;
        }
        if a[i] != b[i] {
            return a[i] < b[i];
        }
        assert(a@.skip(i as int).drop_first() =~= a@.skip(i + 1));
        assert(b@.skip(i as int).drop_first() =~= b@.skip(i + 1));
        i = i + 1;
    }
}

/// Whether entry `i` is listed before entry `j`.
fn entry_before(cs: &Vec<Vec<char>>, i: usize, j: usize) -> (r: bool)
    requires
        i < cs@.len(),
        j < cs@.len(),
    ensures
        r == listed_before(cs@.map_values(|v: Vec<char>| v@), i, j),
{
    let ghost names = cs@.map_values(|v: Vec<char>| v@);
    assert(names[i as int] == cs@[i as int]@ && names[j as int] == cs@[j as int]@);
    if chars_before(cs[i].as_slice(), cs[j].as_slice()) {
        return true;
    }
    if chars_before(cs[j].as_slice(), cs[i].as_slice()) {
        return false;
    }
    proof {
        if names[i as int] != names[j as int] {
            lemma_chars_less_total(names[i as int], names[j as int]);
        }
    }
    i < j
}

proof fn lemma_listed_before_total(names: Seq<Seq<char>>, i: usize, j: usize)
    requires
        i != j,
        i < names.len(),
        j < names.len(),
    ensures
        listed_before(names, i, j) || listed_before(names, j, i),
        !(listed_before(names, i, j) && listed_before(names, j, i)),
{
    if names[i as int] != names[j as int] {
        lemma_chars_less_total(names[i as int], names[j as int]);
        if chars_less(names[i as int], names[j as int]) && chars_less(names[j as int], names[i as int]) {
            lemma_chars_less_transitive(names[i as int], names[j as int], names[i as int]);
            lemma_chars_less_irreflexive(names[i as int]);
        }
    } else {
        lemma_chars_less_irreflexive(names[i as int]);
    }
}

proof fn lemma_listed_before_transitive(names: Seq<Seq<char>>, i: usize, j: usize, k: usize)
    requires
        listed_before(names, i, j),
        listed_before(names, j, k),
    ensures
        listed_before(names, i, k),
{
    if chars_less(names[i as int], names[j as int]) && chars_less(names[j as int], names[k as int]) {
        lemma_chars_less_transitive(names[i as int], names[j as int], names[k as int]);
    }
}

/// The positions of the `mp3` entries among `names`, in the order of their names.
pub fn select_mp3s(names: &[String]) -> (r: Vec<usize>)
    ensures
        r@.to_multiset() == mp3_positions(names_view(names@)).to_multiset(),
        in_listing_order(names_view(names@), r@),
        forall|k: int| 0 <= k < r@.len() ==> #[trigger] r@[k] < names@.len(),
{
    let ghost view = names_view(names@);
    let cs = names_chars(names);
    assert(cs@.map_values(|v: Vec<char>| v@) =~= view);
    let mut sorted: Vec<usize> = Vec::new();
    let mut i: usize = 0;
    proof {
        assert(view.take(0) =~= Seq::<Seq<char>>::empty());
    }
    while i < names.len()
        invariant
            i <= names@.len() == cs@.len() == view.len(),
            view == names_view(names@),
            cs@.map_values(|v: Vec<char>| v@) == view,
            sorted@.to_multiset() == mp3_positions(view.take(i as int)).to_multiset(),
            in_listing_order(view, sorted@),
            forall|k: int| 0 <= k < sorted@.len() ==> #[trigger] sorted@[k] < i,
        decreases names@.len() - i,
    {
        let ghost prefix = view.take(i + 1);
        assert(prefix.drop_last() =~= view.take(i as int));
        assert(prefix.last() == view[i as int]);
        assert(view[i as int] == names@[i as int]@);
        if has_mp3_extension(names[i].as_str()) {
            // Insert `i` after every entry listed before it.
            let mut p: usize = 0;
            while p < sorted.len() && entry_before(&cs, sorted[p], i)
                invariant
                    p <= sorted@.len(),
                    i < cs@.len(),
                    cs@.map_values(|v: Vec<char>| v@) == view,
                    forall|k: int| 0 <= k < sorted@.len() ==> #[trigger] sorted@[k] < i,
                    forall|k: int| 0 <= k < p ==> listed_before(view, #[trigger] sorted@[k], i),
                decreases sorted@.len() - p,
            {
                p = p + 1;
            }
            let ghost old_sorted = sorted@;
            proof {
                if p < old_sorted.len() {
                    lemma_listed_before_total(view, old_sorted[p as int], i);
                    assert forall|k: int| p <= k < old_sorted.len() implies listed_before(view, i, #[trigger] old_sorted[k]) by {
                        if k > p {
                            assert(listed_before(view, old_sorted[p as int], old_sorted[k]));
                            lemma_listed_before_transitive(view, i, old_sorted[p as int], old_sorted[k]);
                        }
                    }
                }
            }
            sorted.insert(p, i);
            proof {
                assert forall|a: int, b: int| 0 <= a < b < sorted@.len() implies listed_before(view, #[trigger] sorted@[a], #[trigger] sorted@[b]) by {
                    if a < p && b == p {
                    } else if a < p && b > p {
                        assert(sorted@[b] == old_sorted[b - 1]);
                        assert(listed_before(view, old_sorted[a], i));
                        assert(listed_before(view, i, old_sorted[b - 1]));
                        lemma_listed_before_transitive(view, old_sorted[a], i, old_sorted[b - 1]);
                    } else if a == p {
                        assert(sorted@[b] == old_sorted[b - 1]);
                    } else if b < p {
                        assert(listed_before(view, old_sorted[a], old_sorted[b]));
                    } else {
                        assert(sorted@[a] == old_sorted[a - 1] && sorted@[b] == old_sorted[b - 1]);
                        assert(listed_before(view, old_sorted[a - 1], old_sorted[b - 1]));
                    }
                }
                assert(sorted@ =~= old_sorted.insert(p as int, i));
                vstd::seq_lib::to_multiset_insert(old_sorted, p as int, i);
                assert(mp3_positions(prefix) == mp3_positions(view.take(i as int)).push(i));
                vstd::seq_lib::to_multiset_build(mp3_positions(view.take(i as int)), i);
            }
        } else {
            assert(mp3_positions(prefix) == mp3_positions(view.take(i as int)));
        }
        i = i + 1;
    }
    assert(view.take(names@.len() as int) =~= view);
    sorted
}

} // verus!
