//! Strings as sequences of characters: searching, cutting, splitting and
//! joining, each with a specification over `Seq<char>`.

use vstd::prelude::*;

verus! {

/// The index of the first `c` in `s`, or `s.len()` where `s` holds none.
pub open spec fn find_char(s: Seq<char>, c: char) -> nat
    decreases s.len(),
{
    if s.len() == 0 || s[0] == c {
        0
    } else {
        1 + find_char(s.skip(1), c)
    }
}

/// `s` up to, and without, its first `c`; all of `s` where it holds none.
pub open spec fn take_until(s: Seq<char>, c: char) -> Seq<char> {
    s.take(find_char(s, c) as int)
}

/// `s` with every occurrence of `pat` taken out, scanning from the left and
/// resuming behind each match, so that matches never overlap.
pub open spec fn remove_all(s: Seq<char>, pat: Seq<char>) -> Seq<char>
    decreases s.len(),
{
    if pat.len() == 0 || s.len() == 0 {
        s
    } else if pat.is_prefix_of(s) {
        remove_all(s.skip(pat.len() as int), pat)
    } else {
        seq![s[0]] + remove_all(s.skip(1), pat)
    }
}

/// The pieces of `s` between occurrences of `sep`. There is always at least
/// one piece, and pieces may be empty.
pub open spec fn split_on(s: Seq<char>, sep: char) -> Seq<Seq<char>>
    decreases s.len(),
{
    let i = find_char(s, sep);
    if i >= s.len() {
        seq![s]
    } else {
        seq![s.take(i as int)] + split_on(s.skip(i as int + 1), sep)
    }
}

/// The pieces in order, with `sep` between neighbours.
pub open spec fn join_with(parts: Seq<Seq<char>>, sep: char) -> Seq<char>
    decreases parts.len(),
{
    if parts.len() == 0 {
        Seq::empty()
    } else if parts.len() == 1 {
        parts[0]
    } else {
        join_with(parts.drop_last(), sep) + seq![sep] + parts.last()
    }
}

/// The views of the items, in order.
pub open spec fn views<T: View>(items: Seq<T>) -> Seq<T::V> {
    Seq::new(items.len(), |i: int| items[i]@)
}

/// What an optional string holds.
pub open spec fn text_of(s: Option<String>) -> Option<Seq<char>> {
    match s {
        Some(s) => Some(s@),
        None => None,
    }
}

/// Whether `a` comes strictly before `b` in the dictionary order on code
/// points: at the first index where they differ `a` has the smaller
/// character, or `a` ends first.
pub open spec fn lex_lt(a: Seq<char>, b: Seq<char>) -> bool
    decreases a.len(),
{
    if b.len() == 0 {
        false
    } else if a.len() == 0 {
        true
    } else if a[0] != b[0] {
        a[0] < b[0]
    } else {
        lex_lt(a.skip(1), b.skip(1))
    }
}

/// `a` comes before `b`, or is `b`.
pub open spec fn lex_le(a: Seq<char>, b: Seq<char>) -> bool {
    a == b || lex_lt(a, b)
}

/// Whether `needle` stands somewhere in `hay` as a contiguous run.
pub open spec fn has_substring(hay: Seq<char>, needle: Seq<char>) -> bool {
    exists|i: int| 0 <= i <= hay.len() && #[trigger] needle.is_prefix_of(hay.skip(i))
}

/// The lower-case form of a string as `str::to_lowercase` computes it.
pub uninterp spec fn lowercase(s: Seq<char>) -> Seq<char>;

/// `find_char` is the least index that holds `c`.
pub proof fn lemma_find_char(s: Seq<char>, c: char)
    ensures
        find_char(s, c) <= s.len(),
        forall|j: int| 0 <= j < find_char(s, c) ==> s[j] != c,
        find_char(s, c) < s.len() ==> s[find_char(s, c) as int] == c,
    decreases s.len(),
{
    if s.len() == 0 || s[0] == c {
    } else {
        let rest = s.skip(1);
        lemma_find_char(rest, c);
        assert forall|j: int| 0 <= j < find_char(s, c) implies s[j] != c by {
            if j > 0 {
                assert(rest[j - 1] == s[j]);
            }
        }
        if find_char(s, c) < s.len() {
            assert(rest[find_char(rest, c) as int] == s[find_char(rest, c) as int + 1]);
        }
    }
}

/// An index behind which `c` first shows, or the length where it never does,
/// is what `find_char` gives.
pub proof fn lemma_find_char_is(s: Seq<char>, c: char, k: int)
    requires
        0 <= k <= s.len(),
        forall|j: int| 0 <= j < k ==> s[j] != c,
        k < s.len() ==> s[k] == c,
    ensures
        find_char(s, c) == k,
{
    lemma_find_char(s, c);
    let f = find_char(s, c) as int;
    if f < k {
        assert(s[f] != c);
    } else if k < f {
        assert(s[k] != c);
    }
}

/// No sequence comes before itself.
pub proof fn lemma_lex_lt_irreflexive(a: Seq<char>)
    ensures
        !lex_lt(a, a),
    decreases a.len(),
{
    if a.len() > 0 {
        lemma_lex_lt_irreflexive(a.skip(1));
    }
}

/// Of two different sequences exactly one comes before the other.
pub proof fn lemma_lex_lt_total(a: Seq<char>, b: Seq<char>)
    ensures
        a == b || lex_lt(a, b) || lex_lt(b, a),
        !(lex_lt(a, b) && lex_lt(b, a)),
    decreases a.len(),
{
    if a.len() == 0 || b.len() == 0 {
        if a.len() == 0 && b.len() == 0 {
            assert(a =~= b);
        }
    } else if a[0] == b[0] {
        lemma_lex_lt_total(a.skip(1), b.skip(1));
        if a.skip(1) == b.skip(1) {
            assert(a =~= seq![a[0]] + a.skip(1));
            assert(b =~= seq![b[0]] + b.skip(1));
        }
    }
}

/// The order is transitive.
pub proof fn lemma_lex_lt_transitive(a: Seq<char>, b: Seq<char>, c: Seq<char>)
    requires
        lex_lt(a, b),
        lex_lt(b, c),
    ensures
        lex_lt(a, c),
    decreases a.len(),
{
    if a.len() > 0 && a[0] == b[0] && b[0] == c[0] {
        lemma_lex_lt_transitive(a.skip(1), b.skip(1), c.skip(1));
    }
}

/// `lex_le` is a total order: any two sequences compare, and it is
/// transitive and antisymmetric.
pub proof fn lemma_lex_le_order(a: Seq<char>, b: Seq<char>, c: Seq<char>)
    ensures
        lex_le(a, a),
        lex_le(a, b) || lex_le(b, a),
        lex_le(a, b) && lex_le(b, a) ==> a == b,
        lex_le(a, b) && lex_le(b, c) ==> lex_le(a, c),
        lex_le(a, b) <==> !lex_lt(b, a),
{
    lemma_lex_lt_total(a, b);
    lemma_lex_lt_irreflexive(a);
    if lex_lt(a, b) && lex_lt(b, c) {
        lemma_lex_lt_transitive(a, b, c);
    }
}

/// No `c` in `a`: the first `c` of `a + b` is the first of `b`.
pub proof fn lemma_find_char_append(a: Seq<char>, b: Seq<char>, c: char)
    requires
        forall|j: int| 0 <= j < a.len() ==> a[j] != c,
    ensures
        find_char(a + b, c) == a.len() + find_char(b, c),
{
    lemma_find_char(b, c);
    let k = a.len() + find_char(b, c);
    assert forall|j: int| 0 <= j < k implies (a + b)[j] != c by {
        if j >= a.len() {
            assert((a + b)[j] == b[j - a.len()]);
        }
    }
    lemma_find_char_is(a + b, c, k as int);
}

/// Joining with one more piece in front.
pub proof fn lemma_join_prepend(first: Seq<char>, rest: Seq<Seq<char>>, sep: char)
    ensures
        join_with(seq![first] + rest, sep) == if rest.len() == 0 {
            first
        } else {
            first + seq![sep] + join_with(rest, sep)
        },
    decreases rest.len(),
{
    let all = seq![first] + rest;
    if rest.len() == 0 {
        assert(all[0] == first);
    } else {
        assert(all.drop_last() =~= seq![first] + rest.drop_last());
        assert(all.last() == rest.last());
        lemma_join_prepend(first, rest.drop_last(), sep);
        if rest.len() == 1 {
            assert(join_with(rest, sep) == rest.last());
        } else {
            assert(first + seq![sep] + join_with(rest.drop_last(), sep) + seq![sep] + rest.last()
                =~= first + seq![sep] + (join_with(rest.drop_last(), sep) + seq![sep]
                + rest.last()));
        }
    }
}

/// Splitting always gives at least one piece, no piece holds the separator,
/// and every character of a piece is a character of the string.
pub proof fn lemma_split_pieces(s: Seq<char>, sep: char)
    ensures
        split_on(s, sep).len() >= 1,
        split_on(s, sep).len() == 1 <==> find_char(s, sep) == s.len(),
        forall|k: int, j: int|
            0 <= k < split_on(s, sep).len() && 0 <= j < split_on(s, sep)[k].len() ==> {
                &&& #[trigger] split_on(s, sep)[k][j] != sep
                &&& s.contains(split_on(s, sep)[k][j])
            },
    decreases s.len(),
{
    lemma_find_char(s, sep);
    let i = find_char(s, sep) as int;
    if i < s.len() {
        let rest = s.skip(i + 1);
        lemma_split_pieces(rest, sep);
        let pieces = split_on(s, sep);
        assert forall|k: int, j: int| 0 <= k < pieces.len() && 0 <= j < pieces[k].len() implies {
            &&& #[trigger] pieces[k][j] != sep
            &&& s.contains(pieces[k][j])
        } by {
            if k == 0 {
                assert(pieces[0][j] == s[j]);
            } else {
                let piece = split_on(rest, sep)[k - 1];
                assert(pieces[k] == piece);
                assert(piece[j] != sep && rest.contains(piece[j]));
                let w = choose|w: int| 0 <= w < rest.len() && rest[w] == piece[j];
                assert(s[i + 1 + w] == piece[j]);
            }
        }
    } else {
        assert forall|j: int| 0 <= j < s.len() implies s.contains(s[j]) by {}
    }
}

/// Joining the pieces of a split by the separator gives the string back.
pub proof fn lemma_join_split(s: Seq<char>, sep: char)
    ensures
        join_with(split_on(s, sep), sep) == s,
    decreases s.len(),
{
    lemma_find_char(s, sep);
    let i = find_char(s, sep) as int;
    if i < s.len() {
        let rest = s.skip(i + 1);
        lemma_join_split(rest, sep);
        lemma_split_pieces(rest, sep);
        lemma_join_prepend(s.take(i), split_on(rest, sep), sep);
        assert(s.take(i) + seq![sep] + rest =~= s);
    }
}

/// The characters of `s`, in order.
pub fn chars_of(s: &str) -> (out: Vec<char>)
    ensures
        out@ == s@,
{
    let mut out: Vec<char> = Vec::new();
    for c in it: s.chars()
        invariant
            out@ == it.seq().take(it.index() as int),
            it.seq() == s@,
    {
        out.push(c);
    }
    out
}

/// `String::push`: the string with one more character at its end.
pub assume_specification[ String::push ](s: &mut String, ch: char)
    ensures
        final(s)@ == old(s)@.push(ch),
;

/// The string made of these characters.
pub fn string_of(chars: &[char]) -> (s: String)
    ensures
        s@ == chars@,
{
    let mut s = String::new();
    let mut i: usize = 0;
    while i < chars.len()
        invariant
            i <= chars.len(),
            s@ == chars@.take(i as int),
        decreases chars.len() - i,
    {
        s.push(chars[i]);
        assert(chars@.take(i + 1) =~= chars@.take(i as int).push(chars@[i as int]));
        i += 1;
    }
    assert(chars@.take(chars.len() as int) =~= chars@);
    s
}

/// `str::to_lowercase`: the lower-case equivalent of `s` by the Unicode
/// case mapping, a function of the characters of `s` alone.
#[verifier::external_body]
pub(crate) fn to_lowercase(s: &str) -> (r: String)
    ensures
        r@ == lowercase(s@),
{
    s.to_lowercase()
}

/// The index of the first `c` in `s`, counted in characters.
pub fn position_of(s: &[char], c: char) -> (k: usize)
    ensures
        k == find_char(s@, c),
{
    let mut k: usize = 0;
    while k < s.len() && s[k] != c
        invariant
            k <= s.len(),
            forall|j: int| 0 <= j < k ==> s@[j] != c,
        decreases s.len() - k,
    {
        k += 1;
    }
    proof {
        lemma_find_char_is(s@, c, k as int);
    }
    k
}

/// Whether `pat` stands in `s` at index `at`.
pub fn matches_at(s: &[char], at: usize, pat: &[char]) -> (b: bool)
    ensures
        b == (at <= s.len() && pat@.is_prefix_of(s@.skip(at as int))),
{
    if at > s.len() || pat.len() > s.len() - at {
        return false;
    }
    let mut j: usize = 0;
    while j < pat.len()
        invariant
            j <= pat.len(),
            at + pat.len() <= s.len(),
            forall|i: int| 0 <= i < j ==> pat@[i] == s@[at + i],
        decreases pat.len() - j,
    {
        if pat[j] != s[at + j] {
            proof {
                let rest = s@.skip(at as int);
                assert(rest.subrange(0, pat@.len() as int)[j as int] == s@[at + j]);
            }
            return false;
        }
        j += 1;
    }
    proof {
        let rest = s@.skip(at as int);
        assert(rest.subrange(0, pat@.len() as int) =~= pat@);
    }
    true
}

/// `s` without any occurrence of `pat`.
pub fn strip_all(s: &[char], pat: &[char]) -> (out: Vec<char>)
    ensures
        out@ == remove_all(s@, pat@),
{
    let mut out: Vec<char> = Vec::new();
    if pat.len() == 0 {
        let mut i: usize = 0;
        while i < s.len()
            invariant
                i <= s.len(),
                out@ == s@.take(i as int),
            decreases s.len() - i,
        {
            out.push(s[i]);
            i += 1;
        }
        assert(s@.take(s.len() as int) =~= s@);
        return out;
    }
    let mut i: usize = 0;
    assert(s@.skip(0) =~= s@ && out@ + s@ =~= s@);
    while i < s.len()
        invariant
            i <= s.len(),
            pat.len() > 0,
            remove_all(s@, pat@) == out@ + remove_all(s@.skip(i as int), pat@),
        decreases s.len() - i,
    {
        let ghost rest = s@.skip(i as int);
        if matches_at(s, i, pat) {
            proof {
                assert(rest.skip(pat@.len() as int) =~= s@.skip(i + pat.len()));
            }
            i += pat.len();
        } else {
            proof {
                assert(rest.skip(1) =~= s@.skip(i + 1));
                assert(out@.push(s@[i as int]) + remove_all(s@.skip(i + 1), pat@) =~= out@ + (
                seq![rest[0]] + remove_all(rest.skip(1), pat@)));
            }
            out.push(s[i]);
            i += 1;
        }
    }
    assert(out@ + Seq::<char>::empty() =~= out@);
    out
}

/// Whether the two slices hold the same characters.
pub fn chars_eq(a: &[char], b: &[char]) -> (r: bool)
    ensures
        r == (a@ == b@),
{
    if a.len() != b.len() {
        return false;
    }
    let mut i: usize = 0;
    while i < a.len()
        invariant
            i <= a.len(),
            a.len() == b.len(),
            forall|j: int| 0 <= j < i ==> a@[j] == b@[j],
        decreases a.len() - i,
    {
        if a[i] != b[i] {
            return false;
        }
        i += 1;
    }
    assert(a@ =~= b@);
    true
}

/// Whether `a` comes strictly before `b` in the dictionary order.
pub fn chars_lt(a: &[char], b: &[char]) -> (r: bool)
    ensures
        r == lex_lt(a@, b@),
{
    let mut i: usize = 0;
    assert(a@.skip(0) =~= a@ && b@.skip(0) =~= b@);
    while i < a.len() && i < b.len()
        invariant
            i <= a.len(),
            i <= b.len(),
            lex_lt(a@, b@) == lex_lt(a@.skip(i as int), b@.skip(i as int)),
        decreases a.len() - i,
    {
        if a[i] != b[i] {
            return a[i] < b[i];
        }
        proof {
            assert(a@.skip(i as int).skip(1) =~= a@.skip(i + 1));
            assert(b@.skip(i as int).skip(1) =~= b@.skip(i + 1));
        }
        i += 1;
    }
    i < b.len()
}

/// Whether `needle` stands somewhere in `hay`.
pub fn contains_chars(hay: &[char], needle: &[char]) -> (r: bool)
    ensures
        r == has_substring(hay@, needle@),
{
    let mut i: usize = 0;
    loop
        invariant
            i <= hay.len(),
            forall|j: int| 0 <= j < i ==> !#[trigger] needle@.is_prefix_of(hay@.skip(j)),
        decreases hay.len() - i,
    {
        if matches_at(hay, i, needle) {
            return true;
        }
        if i == hay.len() {
            return false;
        }
        i += 1;
    }
}

/// The pieces of `s` between occurrences of `sep`.
pub fn split_chars(s: &[char], sep: char) -> (parts: Vec<Vec<char>>)
    ensures
        views(parts@) == split_on(s@, sep),
{
    let mut parts: Vec<Vec<char>> = Vec::new();
    let mut cur: Vec<char> = Vec::new();
    let mut i: usize = 0;
    assert(s@.skip(0) =~= s@ && cur@ + s@ =~= s@);
    assert(views(parts@) + split_on(s@, sep) =~= split_on(s@, sep));
    while i < s.len()
        invariant
            i <= s.len(),
            forall|j: int| 0 <= j < cur.len() ==> cur@[j] != sep,
            split_on(s@, sep) == views(parts@) + split_on(cur@ + s@.skip(i as int), sep),
        decreases s.len() - i,
    {
        let ghost rest = s@.skip(i as int);
        let ghost whole = cur@ + rest;
        let ghost done = views(parts@);
        if s[i] == sep {
            proof {
                lemma_find_char_append(cur@, rest, sep);
                assert(whole.take(cur.len() as int) =~= cur@);
                assert(whole.skip(cur.len() + 1) =~= Seq::<char>::empty() + s@.skip(i + 1));
            }
            let ghost piece = cur@;
            parts.push(cur);
            cur = Vec::new();
            proof {
                assert(views(parts@) =~= done.push(piece));
                assert(done.push(piece) + split_on(cur@ + s@.skip(i + 1), sep) =~= done + (
                seq![piece] + split_on(cur@ + s@.skip(i + 1), sep)));
            }
        } else {
            cur.push(s[i]);
            proof {
                assert(cur@ + s@.skip(i + 1) =~= whole);
            }
        }
        i += 1;
    }
    proof {
        assert(cur@ + s@.skip(i as int) =~= cur@);
        lemma_find_char_is(cur@, sep, cur.len() as int);
    }
    let ghost done = views(parts@);
    let ghost piece = cur@;
    parts.push(cur);
    assert(views(parts@) =~= done + seq![piece]);
    parts
}

/// The pieces in order, with `sep` between neighbours.
pub fn join_chars(parts: &[Vec<char>], sep: char) -> (out: Vec<char>)
    ensures
        out@ == join_with(views(parts@), sep),
{
    let mut out: Vec<char> = Vec::new();
    let mut i: usize = 0;
    while i < parts.len()
        invariant
            i <= parts.len(),
            out@ == join_with(views(parts@).take(i as int), sep),
        decreases parts.len() - i,
    {
        let ghost before = out@;
        if i > 0 {
            out.push(sep);
        }
        let ghost head = out@;
        let part = &parts[i];
        let mut j: usize = 0;
        while j < part.len()
            invariant
                j <= part.len(),
                out@ == head + part@.take(j as int),
            decreases part.len() - j,
        {
            out.push(part[j]);
            proof {
                assert(part@.take(j + 1) =~= part@.take(j as int).push(part@[j as int]));
            }
            j += 1;
        }
        proof {
            let upto = views(parts@).take(i + 1);
            assert(part@.take(part.len() as int) =~= part@);
            assert(upto.drop_last() =~= views(parts@).take(i as int));
            assert(upto.last() == part@);
            if i == 0 {
                assert(head + part@ =~= part@);
            }
        }
        i += 1;
    }
    assert(views(parts@).take(parts.len() as int) =~= views(parts@));
    out
}

} // verus!
