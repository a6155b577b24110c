//! Character-level helpers shared by the HTTP and service modules: whitespace,
//! trimming, splitting, searching and lines, each with the specification that
//! the standard library documents for the corresponding `str` operation.

use vstd::prelude::*;

verus! {

/// Unicode `White_Space`, as `char::is_whitespace` documents it.
pub open spec fn is_ws(c: char) -> bool {
    ||| c == ' '
    ||| ('\t' <= c && c <= '\r')
    ||| c == '\u{85}'
    ||| c == '\u{A0}'
    ||| c == '\u{1680}'
    ||| ('\u{2000}' <= c && c <= '\u{200A}')
    ||| c == '\u{2028}'
    ||| c == '\u{2029}'
    ||| c == '\u{202F}'
    ||| c == '\u{205F}'
    ||| c == '\u{3000}'
}

/// Whether `c` is whitespace.
pub fn is_whitespace(c: char) -> (res: bool)
    ensures
        res == is_ws(c),
{
    c == ' ' || ('\t' <= c && c <= '\r') || c == '\u{85}' || c == '\u{A0}' || c == '\u{1680}'
        || ('\u{2000}' <= c && c <= '\u{200A}') || c == '\u{2028}' || c == '\u{2029}'
        || c == '\u{202F}' || c == '\u{205F}' || c == '\u{3000}'
}

/// The classes of characters that the library trims at or splits on.
#[derive(Clone, Copy, Debug, PartialEq, Eq)]
pub enum CharClass {
    /// `char::is_whitespace`.
    Whitespace,
    /// Whitespace or `,`.
    WhitespaceOrComma,
    /// `[` or `]`.
    Bracket,
    /// Exactly the given character.
    Exactly(char),
}

/// Membership of `c` in `class`.
pub open spec fn in_class(class: CharClass, c: char) -> bool {
    match class {
        CharClass::Whitespace => is_ws(c),
        CharClass::WhitespaceOrComma => is_ws(c) || c == ',',
        CharClass::Bracket => c == '[' || c == ']',
        CharClass::Exactly(x) => c == x,
    }
}

/// Tests whether `c` belongs to `class`.
pub fn class_contains(class: CharClass, c: char) -> (res: bool)
    ensures
        res == in_class(class, c),
{
    match class {
        CharClass::Whitespace => is_whitespace(c),
        CharClass::WhitespaceOrComma => is_whitespace(c) || c == ',',
        CharClass::Bracket => c == '[' || c == ']',
        CharClass::Exactly(x) => c == x,
    }
}

/// `s` without its leading characters of `class`.
pub open spec fn trim_start_spec(s: Seq<char>, class: CharClass) -> Seq<char>
    decreases s.len(),
{
    if s.len() > 0 && in_class(class, s[0]) {
        trim_start_spec(s.drop_first(), class)
    } else {
        s
    }
}

/// `s` without its trailing characters of `class`.
pub open spec fn trim_end_spec(s: Seq<char>, class: CharClass) -> Seq<char>
    decreases s.len(),
{
    if s.len() > 0 && in_class(class, s.last()) {
        trim_end_spec(s.drop_last(), class)
    } else {
        s
    }
}

/// `s` without leading and trailing characters of `class`
/// (`str::trim` for whitespace, `str::trim_matches` otherwise).
pub open spec fn trim_spec(s: Seq<char>, class: CharClass) -> Seq<char> {
    trim_end_spec(trim_start_spec(s, class), class)
}

/// The pieces of `s` between the characters of `class`, empty pieces
/// included (`str::split` with a character predicate).
pub open spec fn split_spec(s: Seq<char>, class: CharClass) -> Seq<Seq<char>>
    decreases s.len(),
{
    if s.len() == 0 {
        seq![Seq::<char>::empty()]
    } else if in_class(class, s[0]) {
        seq![Seq::<char>::empty()] + split_spec(s.drop_first(), class)
    } else {
        prepend_first(seq![s[0]], split_spec(s.drop_first(), class))
    }
}

/// `pieces` with `prefix` put in front of its first piece.
pub open spec fn prepend_first(prefix: Seq<char>, pieces: Seq<Seq<char>>) -> Seq<Seq<char>> {
    pieces.update(0, prefix + pieces[0])
}

/// Whether `p` occurs in `s` at position `i`.
pub open spec fn occurs_at(s: Seq<char>, p: Seq<char>, i: int) -> bool {
    0 <= i && i + p.len() <= s.len() && s.subrange(i, i + p.len()) == p
}

/// The pieces of `s` between the non-overlapping occurrences of the non-empty
/// pattern `p`, found from left to right (`str::split` with a string pattern).
pub open spec fn split_pat_spec(s: Seq<char>, p: Seq<char>) -> Seq<Seq<char>>
    decreases s.len(),
{
    if s.len() == 0 {
        seq![Seq::<char>::empty()]
    } else if p.len() > 0 && occurs_at(s, p, 0) {
        seq![Seq::<char>::empty()] + split_pat_spec(s.skip(p.len() as int), p)
    } else {
        prepend_first(seq![s[0]], split_pat_spec(s.drop_first(), p))
    }
}

/// The first position at which the non-empty pattern `p` occurs in `s`.
pub open spec fn find_spec(s: Seq<char>, p: Seq<char>) -> Option<int>
    decreases s.len(),
{
    if p.len() > 0 && occurs_at(s, p, 0) {
        Some(0)
    } else if s.len() == 0 {
        None
    } else {
        match find_spec(s.drop_first(), p) {
            Some(k) => Some(k + 1),
            None => None,
        }
    }
}

/// `str::splitn(2, p)`: the part before the first occurrence of `p` and the
/// part after it, or `s` alone where `p` does not occur.
pub open spec fn splitn2_spec(s: Seq<char>, p: Seq<char>) -> Seq<Seq<char>> {
    match find_spec(s, p) {
        Some(k) => seq![s.take(k), s.skip(k + p.len())],
        None => seq![s],
    }
}

/// The views of a sequence of string slices.
pub open spec fn views(v: Seq<&str>) -> Seq<Seq<char>> {
    v.map_values(|x: &str| x@)
}

/// `s` without leading and trailing characters of `class`.
pub fn trim_class<'a>(s: &'a str, class: CharClass) -> (res: &'a str)
    ensures
        res@ == trim_spec(s@, class),
{
    let n = s.unicode_len();
    let mut i: usize = 0;
    assert(s@.skip(0) =~= s@);
    while i < n && class_contains(class, s.get_char(i))
        invariant
            n == s@.len(),
            i <= n,
            trim_start_spec(s@, class) == trim_start_spec(s@.skip(i as int), class),
        decreases n - i,
    {
        proof {
            assert(s@.skip(i as int).drop_first() =~= s@.skip(i + 1));
        }
        i = i + 1;
    }
    proof {
        if i == n {
            assert(s@.skip(i as int) =~= Seq::<char>::empty());
        }
        assert(s@.skip(i as int) =~= s@.subrange(i as int, n as int));
    }
    let mut j: usize = n;
    while j > i && class_contains(class, s.get_char(j - 1))
        invariant
            n == s@.len(),
            i <= j <= n,
            trim_spec(s@, class) == trim_end_spec(s@.subrange(i as int, j as int), class),
        decreases j - i,
    {
        proof {
            assert(s@.subrange(i as int, j as int).drop_last() =~= s@.subrange(i as int, j - 1));
        }
        j = j - 1;
    }
    s.substring_char(i, j)
}

/// The pieces of the split always number at least one.
pub proof fn lemma_split_nonempty(s: Seq<char>, class: CharClass)
    ensures
        split_spec(s, class).len() >= 1,
    decreases s.len(),
{
    if s.len() > 0 {
        lemma_split_nonempty(s.drop_first(), class);
    }
}

/// Pieces of `s` between characters of `class` (`str::split`).
pub fn split_class<'a>(s: &'a str, class: CharClass) -> (res: Vec<&'a str>)
    ensures
        views(res@) == split_spec(s@, class),
{
    let n = s.unicode_len();
    let mut res: Vec<&'a str> = Vec::new();
    let mut start: usize = 0;
    let mut i: usize = 0;
    proof {
        assert(s@.skip(0) =~= s@);
        lemma_split_nonempty(s@, class);
        assert(s@.subrange(0, 0) =~= Seq::<char>::empty());
        assert(views(res@) =~= Seq::<Seq<char>>::empty());
        assert(prepend_first(Seq::<char>::empty(), split_spec(s@, class)) =~= split_spec(s@, class));
        assert(Seq::<Seq<char>>::empty() + split_spec(s@, class) =~= split_spec(s@, class));
    }
    while i < n
        invariant
            n == s@.len(),
            start <= i <= n,
            split_spec(s@, class) == views(res@) + prepend_first(
                s@.subrange(start as int, i as int),
                split_spec(s@.skip(i as int), class),
            ),
        decreases n - i,
    {
        let c = s.get_char(i);
        let ghost rest = s@.skip(i as int);
        let ghost cur = s@.subrange(start as int, i as int);
        let ghost old_views = views(res@);
        proof {
            assert(rest.drop_first() =~= s@.skip(i + 1));
            lemma_split_nonempty(rest.drop_first(), class);
            assert(rest[0] == c);
        }
        if class_contains(class, c) {
            let piece = s.substring_char(start, i);
            res.push(piece);
            proof {
                let tail = split_spec(rest.drop_first(), class);
                assert(views(res@) =~= old_views.push(cur));
                assert(prepend_first(cur, split_spec(rest, class)) =~= seq![cur] + tail);
                assert(s@.subrange(i + 1, i + 1) =~= Seq::<char>::empty());
                assert(prepend_first(Seq::<char>::empty(), tail) =~= tail);
                assert(old_views + (seq![cur] + tail) =~= old_views.push(cur) + tail);
            }
            start = i + 1;
        } else {
            proof {
                let tail = split_spec(rest.drop_first(), class);
                assert(s@.subrange(start as int, i + 1) =~= cur + seq![c]);
                assert(split_spec(rest, class) == prepend_first(seq![c], tail));
                assert(cur + (seq![c] + tail[0]) =~= (cur + seq![c]) + tail[0]);
                assert(prepend_first(cur, split_spec(rest, class)) =~= prepend_first(
                    cur + seq![c],
                    tail,
                ));
            }
        }
        i = i + 1;
    }
    let last = s.substring_char(start, n);
    let ghost old_views = views(res@);
    res.push(last);
    proof {
        assert(s@.skip(n as int) =~= Seq::<char>::empty());
        assert(views(res@) =~= old_views.push(last@));
        assert(prepend_first(last@, seq![Seq::<char>::empty()]) =~= seq![last@]);
    }
    res
}

/// Whether `p` occurs in `s` at character position `i`.
pub fn occurs_at_exec(s: &str, p: &str, i: usize) -> (res: bool)
    ensures
        res == occurs_at(s@, p@, i as int),
{
    let n = s.unicode_len();
    let m = p.unicode_len();
    if i > n || m > n - i {
        return false;
    }
    let mut k: usize = 0;
    while k < m
        invariant
            n == s@.len(),
            m == p@.len(),
            i + m <= n,
            k <= m,
            forall|j: int| 0 <= j < k ==> s@[i + j] == p@[j],
        decreases m - k,
    {
        if s.get_char(i + k) != p.get_char(k) {
            proof {
                assert(s@.subrange(i as int, i + m)[k as int] != p@[k as int]);
            }
            return false;
        }
        k = k + 1;
    }
    assert(s@.subrange(i as int, i + m) =~= p@);
    true
}

/// Splitting always yields at least one piece.
pub proof fn lemma_split_pat_nonempty(s: Seq<char>, p: Seq<char>)
    ensures
        split_pat_spec(s, p).len() >= 1,
    decreases s.len(),
{
    if s.len() > 0 {
        if p.len() > 0 && occurs_at(s, p, 0) {
            lemma_split_pat_nonempty(s.skip(p.len() as int), p);
        } else {
            lemma_split_pat_nonempty(s.drop_first(), p);
        }
    }
}

/// Pieces of `s` between the occurrences of the non-empty pattern `p`
/// (`str::split` with a string pattern).
pub fn split_pat<'a>(s: &'a str, p: &str) -> (res: Vec<&'a str>)
    requires
        p@.len() > 0,
    ensures
        views(res@) == split_pat_spec(s@, p@),
{
    let n = s.unicode_len();
    let m = p.unicode_len();
    let mut res: Vec<&'a str> = Vec::new();
    let mut start: usize = 0;
    let mut i: usize = 0;
    proof {
        assert(s@.skip(0) =~= s@);
        lemma_split_pat_nonempty(s@, p@);
        assert(s@.subrange(0, 0) =~= Seq::<char>::empty());
        assert(views(res@) =~= Seq::<Seq<char>>::empty());
        assert(prepend_first(Seq::<char>::empty(), split_pat_spec(s@, p@)) =~= split_pat_spec(
            s@,
            p@,
        ));
        assert(Seq::<Seq<char>>::empty() + split_pat_spec(s@, p@) =~= split_pat_spec(s@, p@));
    }
    while i < n
        invariant
            n == s@.len(),
            m == p@.len(),
            m > 0,
            start <= i <= n,
            split_pat_spec(s@, p@) == views(res@) + prepend_first(
                s@.subrange(start as int, i as int),
                split_pat_spec(s@.skip(i as int), p@),
            ),
        decreases n - i,
    {
        let ghost rest = s@.skip(i as int);
        let ghost cur = s@.subrange(start as int, i as int);
        let ghost old_views = views(res@);
        let hit = occurs_at_exec(s, p, i);
        proof {
            if hit {
                assert(rest.subrange(0, m as int) =~= s@.subrange(i as int, i + m));
            } else {
                if occurs_at(rest, p@, 0) {
                    assert(rest.subrange(0, m as int) =~= s@.subrange(i as int, i + m));
                }
            }
        }
        if hit {
            let piece = s.substring_char(start, i);
            res.push(piece);
            proof {
                assert(rest.skip(m as int) =~= s@.skip(i + m));
                let tail = split_pat_spec(rest.skip(m as int), p@);
                lemma_split_pat_nonempty(rest.skip(m as int), p@);
                assert(views(res@) =~= old_views.push(cur));
                assert(prepend_first(cur, split_pat_spec(rest, p@)) =~= seq![cur] + tail);
                assert(s@.subrange(i + m, i + m) =~= Seq::<char>::empty());
                assert(prepend_first(Seq::<char>::empty(), tail) =~= tail);
                assert(old_views + (seq![cur] + tail) =~= old_views.push(cur) + tail);
            }
            i = i + m;
            start = i;
        } else {
            let c = s.get_char(i);
            proof {
                assert(rest.drop_first() =~= s@.skip(i + 1));
                let tail = split_pat_spec(rest.drop_first(), p@);
                lemma_split_pat_nonempty(rest.drop_first(), p@);
                assert(rest[0] == c);
                assert(s@.subrange(start as int, i + 1) =~= cur + seq![c]);
                assert(split_pat_spec(rest, p@) == prepend_first(seq![c], tail));
                assert(cur + (seq![c] + tail[0]) =~= (cur + seq![c]) + tail[0]);
                assert(prepend_first(cur, split_pat_spec(rest, p@)) =~= prepend_first(
                    cur + seq![c],
                    tail,
                ));
            }
            i = i + 1;
        }
    }
    let last = s.substring_char(start, n);
    let ghost old_views = views(res@);
    res.push(last);
    proof {
        assert(s@.skip(n as int) =~= Seq::<char>::empty());
        assert(views(res@) =~= old_views.push(last@));
        assert(prepend_first(last@, seq![Seq::<char>::empty()]) =~= seq![last@]);
    }
    res
}

/// An occurrence in the tail of `s` is an occurrence in `s`, one place on.
pub proof fn lemma_occurs_shift(s: Seq<char>, p: Seq<char>, j: int)
    requires
        s.len() > 0,
        j >= 0,
    ensures
        occurs_at(s.drop_first(), p, j) == occurs_at(s, p, j + 1),
{
    if 0 <= j && j + p.len() <= s.len() - 1 {
        assert(s.drop_first().subrange(j, j + p.len()) =~= s.subrange(j + 1, j + 1 + p.len()));
    }
}

/// `find_spec` is the first occurrence.
pub proof fn lemma_find_first(s: Seq<char>, p: Seq<char>, k: int)
    requires
        p.len() > 0,
        0 <= k <= s.len(),
        forall|j: int| 0 <= j < k ==> !occurs_at(s, p, j),
    ensures
        occurs_at(s, p, k) ==> find_spec(s, p) == Some(k),
        (k == s.len() || k + p.len() > s.len()) ==> find_spec(s, p) is None,
    decreases s.len(),
{
    if k > 0 {
        assert(!occurs_at(s, p, 0));
        assert forall|j: int| 0 <= j < k - 1 implies !occurs_at(s.drop_first(), p, j) by {
            lemma_occurs_shift(s, p, j);
        }
        lemma_occurs_shift(s, p, k - 1);
        lemma_find_first(s.drop_first(), p, k - 1);
    } else {
        if s.len() < p.len() {
            lemma_find_none(s, p);
        }
    }
}

/// A pattern longer than the text does not occur in it.
pub proof fn lemma_find_none(s: Seq<char>, p: Seq<char>)
    requires
        p.len() > 0,
        s.len() < p.len(),
    ensures
        find_spec(s, p) is None,
    decreases s.len(),
{
    if s.len() > 0 {
        lemma_find_none(s.drop_first(), p);
    }
}

/// A pattern that occurs in `s` is found.
pub proof fn lemma_occurs_found(s: Seq<char>, p: Seq<char>, k: int)
    requires
        p.len() > 0,
        occurs_at(s, p, k),
    ensures
        find_spec(s, p) is Some,
    decreases k,
{
    if k > 0 && !occurs_at(s, p, 0) {
        lemma_occurs_shift(s, p, k - 1);
        lemma_occurs_found(s.drop_first(), p, k - 1);
    }
}

/// A pattern whose first character is not in `s` is not found.
pub proof fn lemma_first_char_absent(s: Seq<char>, p: Seq<char>)
    requires
        p.len() > 0,
        forall|i: int| 0 <= i < s.len() ==> #[trigger] s[i] != p[0],
    ensures
        find_spec(s, p) is None,
{
    assert forall|j: int| 0 <= j < s.len() implies !occurs_at(s, p, j) by {
        if occurs_at(s, p, j) {
            assert(s.subrange(j, j + p.len())[0] == s[j]);
        }
    }
    lemma_find_first(s, p, s.len() as int);
}

/// The first character position at which the non-empty pattern `p` occurs in `s`.
pub fn find_pat(s: &str, p: &str) -> (res: Option<usize>)
    requires
        p@.len() > 0,
    ensures
        match res {
            Some(k) => find_spec(s@, p@) == Some(k as int),
            None => find_spec(s@, p@) is None,
        },
{
    let n = s.unicode_len();
    let m = p.unicode_len();
    let mut i: usize = 0;
    while i < n && m <= n - i
        invariant
            n == s@.len(),
            m == p@.len(),
            m > 0,
            i <= n,
            forall|j: int| 0 <= j < i ==> !occurs_at(s@, p@, j),
        decreases n - i,
    {
        if occurs_at_exec(s, p, i) {
            proof {
                lemma_find_first(s@, p@, i as int);
            }
            return Some(i);
        }
        i = i + 1;
    }
    proof {
        lemma_find_first(s@, p@, i as int);
    }
    None
}

/// Whether the non-empty pattern `p` occurs in `s` (`str::contains`).
pub fn contains_pat(s: &str, p: &str) -> (res: bool)
    requires
        p@.len() > 0,
    ensures
        res == find_spec(s@, p@) is Some,
{
    find_pat(s, p).is_some()
}

/// `str::splitn(2, p)` for a non-empty pattern `p`.
pub fn splitn2<'a>(s: &'a str, p: &str) -> (res: Vec<&'a str>)
    requires
        p@.len() > 0,
    ensures
        views(res@) == splitn2_spec(s@, p@),
{
    let n = s.unicode_len();
    let m = p.unicode_len();
    let mut res: Vec<&'a str> = Vec::new();
    match find_pat(s, p) {
        Some(k) => {
            proof {
                lemma_find_bounds(s@, p@);
            }
            let a = s.substring_char(0, k);
            let b = s.substring_char(k + m, n);
            res.push(a);
            res.push(b);
            proof {
                assert(s@.take(k as int) =~= a@);
                assert(s@.skip(k + m) =~= b@);
                assert(views(res@) =~= seq![a@, b@]);
            }
        },
        None => {
            let a = s.substring_char(0, n);
            res.push(a);
            proof {
                assert(s@.subrange(0, n as int) =~= s@);
                assert(views(res@) =~= seq![a@]);
            }
        },
    }
    res
}

/// A found position is an occurrence.
pub proof fn lemma_find_bounds(s: Seq<char>, p: Seq<char>)
    ensures
        find_spec(s, p) matches Some(k) ==> occurs_at(s, p, k),
    decreases s.len(),
{
    if !(p.len() > 0 && occurs_at(s, p, 0)) && s.len() > 0 {
        lemma_find_bounds(s.drop_first(), p);
        if let Some(k) = find_spec(s.drop_first(), p) {
            lemma_occurs_shift(s, p, k);
        }
    }
}

/// Whether `s` ends with `p` (`str::ends_with`).
pub fn ends_with(s: &str, p: &str) -> (res: bool)
    ensures
        res == (p@.len() <= s@.len() && s@.skip(s@.len() - p@.len()) == p@),
{
    let n = s.unicode_len();
    let m = p.unicode_len();
    if m > n {
        return false;
    }
    let r = occurs_at_exec(s, p, n - m);
    proof {
        assert(s@.subrange(n - m, n as int) =~= s@.skip(n - m));
    }
    r
}

/// Whether `s` starts with `p` (`str::starts_with`).
pub fn starts_with(s: &str, p: &str) -> (res: bool)
    ensures
        res == occurs_at(s@, p@, 0),
{
    occurs_at_exec(s, p, 0)
}

/// Whether `a` and `b` hold the same characters (`==` on `str`).
pub fn str_eq(a: &str, b: &str) -> (res: bool)
    ensures
        res == (a@ == b@),
{
    let n = a.unicode_len();
    let m = b.unicode_len();
    if n != m {
        return false;
    }
    let r = occurs_at_exec(a, b, 0);
    proof {
        assert(a@.subrange(0, n as int) =~= a@);
    }
    r
}

/// The non-empty pieces of `ps`, in order.
pub open spec fn non_empty(ps: Seq<Seq<char>>) -> Seq<Seq<char>>
    decreases ps.len(),
{
    if ps.len() == 0 {
        ps
    } else if ps.last().len() == 0 {
        non_empty(ps.drop_last())
    } else {
        non_empty(ps.drop_last()).push(ps.last())
    }
}

/// Keeps the non-empty slices of `v`, in order.
pub fn keep_non_empty<'a>(v: &Vec<&'a str>) -> (res: Vec<&'a str>)
    ensures
        views(res@) == non_empty(views(v@)),
{
    let mut res: Vec<&'a str> = Vec::new();
    let mut i: usize = 0;
    while i < v.len()
        invariant
            i <= v.len(),
            views(res@) == non_empty(views(v@).take(i as int)),
        decreases v.len() - i,
    {
        let ghost pre = views(v@).take(i as int);
        let ghost old_views = views(res@);
        let ghost next = views(v@).take(i + 1);
        proof {
            assert(next.drop_last() =~= pre);
            assert(next.last() == v@[i as int]@);
        }
        if v[i].unicode_len() > 0 {
            res.push(v[i]);
            proof {
                assert(views(res@) =~= old_views.push(v@[i as int]@));
            }
        }
        i = i + 1;
    }
    proof {
        assert(views(v@).take(v.len() as int) =~= views(v@));
    }
    res
}

/// A separator between two texts separates their pieces.
pub proof fn lemma_split_concat(a: Seq<char>, c: char, b: Seq<char>, class: CharClass)
    requires
        in_class(class, c),
    ensures
        split_spec(a + seq![c] + b, class) == split_spec(a, class) + split_spec(b, class),
    decreases a.len(),
{
    let s = a + seq![c] + b;
    if a.len() == 0 {
        assert(s =~= seq![c] + b);
        assert(s.drop_first() =~= b);
    } else {
        assert(s[0] == a[0]);
        assert(s.drop_first() =~= a.drop_first() + seq![c] + b);
        lemma_split_concat(a.drop_first(), c, b, class);
        lemma_split_nonempty(a.drop_first(), class);
        if in_class(class, a[0]) {
            assert(split_spec(s, class) =~= split_spec(a, class) + split_spec(b, class));
        } else {
            assert(split_spec(s, class) =~= split_spec(a, class) + split_spec(b, class));
        }
    }
}

/// A text without separators is a single piece.
pub proof fn lemma_split_none(a: Seq<char>, class: CharClass)
    requires
        forall|i: int| 0 <= i < a.len() ==> !in_class(class, #[trigger] a[i]),
    ensures
        split_spec(a, class) == seq![a],
    decreases a.len(),
{
    if a.len() > 0 {
        assert(!in_class(class, a[0]));
        assert forall|i: int| 0 <= i < a.drop_first().len() implies !in_class(
            class,
            #[trigger] a.drop_first()[i],
        ) by {
            assert(a.drop_first()[i] == a[i + 1]);
        }
        lemma_split_none(a.drop_first(), class);
        assert(seq![a[0]] + a.drop_first() =~= a);
        assert(split_spec(a, class) =~= seq![a]);
    } else {
        assert(a =~= Seq::<char>::empty());
    }
}

/// Keeping the non-empty pieces distributes over concatenation.
pub proof fn lemma_non_empty_concat(a: Seq<Seq<char>>, b: Seq<Seq<char>>)
    ensures
        non_empty(a + b) == non_empty(a) + non_empty(b),
    decreases b.len(),
{
    if b.len() == 0 {
        assert(a + b =~= a);
        assert(non_empty(a) + non_empty(b) =~= non_empty(a));
    } else {
        assert((a + b).drop_last() =~= a + b.drop_last());
        assert((a + b).last() == b.last());
        lemma_non_empty_concat(a, b.drop_last());
        if b.last().len() == 0 {
        } else {
            assert(non_empty(a) + non_empty(b.drop_last()).push(b.last()) =~= (non_empty(a)
                + non_empty(b.drop_last())).push(b.last()));
        }
    }
}

/// The line break `\r\n`.
pub open spec fn crlf() -> Seq<char> {
    seq!['\r', '\n']
}

/// `s` holds no line break `\r\n`.
pub open spec fn no_crlf(s: Seq<char>) -> bool {
    forall|i: int| 0 <= i < s.len() - 1 ==> !(s[i] == '\r' && #[trigger] s[i + 1] == '\n')
}

/// The pieces `ls` joined with `sep` between them (`[&str]::join`).
pub open spec fn join_spec(ls: Seq<Seq<char>>, sep: Seq<char>) -> Seq<char>
    decreases ls.len(),
{
    if ls.len() == 0 {
        Seq::empty()
    } else if ls.len() == 1 {
        ls[0]
    } else {
        join_spec(ls.drop_last(), sep) + sep + ls.last()
    }
}

/// Splitting at a line break after a text without line breaks.
pub proof fn lemma_split_crlf_concat(a: Seq<char>, b: Seq<char>)
    requires
        no_crlf(a),
    ensures
        split_pat_spec(a + crlf() + b, crlf()) == seq![a] + split_pat_spec(b, crlf()),
    decreases a.len(),
{
    let s = a + crlf() + b;
    if a.len() == 0 {
        assert(s =~= crlf() + b);
        assert(s.subrange(0, 2) =~= crlf());
        assert(s.skip(2) =~= b);
        assert(a =~= Seq::<char>::empty());
    } else {
        assert(s[0] == a[0]);
        assert(!occurs_at(s, crlf(), 0)) by {
            if occurs_at(s, crlf(), 0) {
                assert(s.subrange(0, 2)[0] == '\r');
                assert(s.subrange(0, 2)[1] == '\n');
                assert(s[0] == '\r');
                assert(s[1] == '\n');
                if a.len() > 1 {
                    assert(a[0] == s[0]);
                    assert(a[1] == s[1]);
                    assert(a[0int + 1] == '\n');
                    assert(false);
                } else {
                    assert(s[1] == crlf()[0]);
                    assert(false);
                }
            }
        }
        assert(s.drop_first() =~= a.drop_first() + crlf() + b);
        assert(no_crlf(a.drop_first())) by {
            assert forall|i: int| 0 <= i < a.drop_first().len() - 1 implies !(
            a.drop_first()[i] == '\r' && #[trigger] a.drop_first()[i + 1] == '\n') by {
                assert(a.drop_first()[i] == a[i + 1]);
                assert(a.drop_first()[i + 1] == a[i + 2]);
            }
        }
        lemma_split_crlf_concat(a.drop_first(), b);
        lemma_split_pat_nonempty(b, crlf());
        assert(seq![a[0]] + a.drop_first() =~= a);
        assert(split_pat_spec(s, crlf()) =~= seq![a] + split_pat_spec(b, crlf()));
    }
}

/// Joining with a longer first piece.
pub proof fn lemma_join_prepend(c: Seq<char>, ls: Seq<Seq<char>>, sep: Seq<char>)
    requires
        ls.len() >= 1,
    ensures
        join_spec(prepend_first(c, ls), sep) == c + join_spec(ls, sep),
    decreases ls.len(),
{
    let u = prepend_first(c, ls);
    if ls.len() == 1 {
    } else {
        assert(u.drop_last() =~= prepend_first(c, ls.drop_last()));
        lemma_join_prepend(c, ls.drop_last(), sep);
        assert(u.last() == ls.last());
        assert(c + join_spec(ls.drop_last(), sep) + sep + ls.last() =~= c + (join_spec(
            ls.drop_last(),
            sep,
        ) + sep + ls.last()));
    }
}

/// Joining with a piece in front.
pub proof fn lemma_join_cons(c: Seq<char>, ls: Seq<Seq<char>>, sep: Seq<char>)
    requires
        ls.len() >= 1,
    ensures
        join_spec(seq![c] + ls, sep) == c + sep + join_spec(ls, sep),
    decreases ls.len(),
{
    let u = seq![c] + ls;
    assert(u.last() == ls.last());
    if ls.len() == 1 {
        assert(u.drop_last() =~= seq![c]);
        assert(join_spec(seq![c], sep) == c);
    } else {
        assert(u.drop_last() =~= seq![c] + ls.drop_last());
        lemma_join_cons(c, ls.drop_last(), sep);
        assert(c + sep + join_spec(ls.drop_last(), sep) + sep + ls.last() =~= c + sep + (
        join_spec(ls.drop_last(), sep) + sep + ls.last()));
    }
}

/// Joining the pieces of a split restores the text.
pub proof fn lemma_join_split(s: Seq<char>, p: Seq<char>)
    requires
        p.len() > 0,
    ensures
        join_spec(split_pat_spec(s, p), p) == s,
    decreases s.len(),
{
    if s.len() == 0 {
        assert(split_pat_spec(s, p) == seq![Seq::<char>::empty()]);
        assert(s =~= Seq::<char>::empty());
    } else if occurs_at(s, p, 0) {
        let rest = s.skip(p.len() as int);
        lemma_join_split(rest, p);
        lemma_split_pat_nonempty(rest, p);
        lemma_join_cons(Seq::<char>::empty(), split_pat_spec(rest, p), p);
        assert(s =~= s.subrange(0, p.len() as int) + rest);
        assert(Seq::<char>::empty() + p + rest =~= s);
    } else {
        lemma_join_split(s.drop_first(), p);
        lemma_split_pat_nonempty(s.drop_first(), p);
        lemma_join_prepend(seq![s[0]], split_pat_spec(s.drop_first(), p), p);
        assert(seq![s[0]] + s.drop_first() =~= s);
    }
}

/// `l` without one trailing `\r`.
pub open spec fn strip_cr(l: Seq<char>) -> Seq<char> {
    if l.len() > 0 && l.last() == '\r' {
        l.drop_last()
    } else {
        l
    }
}

/// The lines of `s` (`str::lines`): the pieces between `\n`, each without a
/// trailing `\r` where a `\n` follows it, and without a last empty piece.
pub open spec fn lines_spec(s: Seq<char>) -> Seq<Seq<char>> {
    let ps = split_spec(s, CharClass::Exactly('\n'));
    let init = Seq::new((ps.len() - 1) as nat, |i: int| strip_cr(ps[i]));
    if ps.last().len() == 0 {
        init
    } else {
        init.push(ps.last())
    }
}

/// The lines of `s` (`str::lines`).
pub fn lines_of<'a>(s: &'a str) -> (res: Vec<&'a str>)
    ensures
        views(res@) == lines_spec(s@),
{
    let ps = split_class(s, CharClass::Exactly('\n'));
    let ghost pv = views(ps@);
    proof {
        lemma_split_nonempty(s@, CharClass::Exactly('\n'));
    }
    let mut res: Vec<&'a str> = Vec::new();
    let mut i: usize = 0;
    while i + 1 < ps.len()
        invariant
            pv == views(ps@),
            pv.len() >= 1,
            i + 1 <= ps.len(),
            views(res@) == Seq::new(i as nat, |j: int| strip_cr(pv[j])),
        decreases ps.len() - i,
    {
        let l = ps[i];
        let n = l.unicode_len();
        let piece = if n > 0 && l.get_char(n - 1) == '\r' {
            l.substring_char(0, n - 1)
        } else {
            l
        };
        let ghost old_views = views(res@);
        res.push(piece);
        proof {
            assert(pv[i as int] == l@);
            if n > 0 && l@[n - 1] == '\r' {
                assert(l@.drop_last() =~= l@.subrange(0, n - 1));
            }
            assert(piece@ == strip_cr(pv[i as int]));
            assert(views(res@) =~= old_views.push(piece@));
            assert(views(res@) =~= Seq::new((i + 1) as nat, |j: int| strip_cr(pv[j])));
        }
        i = i + 1;
    }
    let last = ps[ps.len() - 1];
    if last.unicode_len() > 0 {
        let ghost old_views = views(res@);
        res.push(last);
        proof {
            assert(views(res@) =~= old_views.push(last@));
        }
    }
    proof {
        assert(pv.last() == last@);
    }
    res
}

} // verus!
