//! Character-level helpers shared by the routing and file-serving rules.
//!
//! Every rule of the library is stated over `Seq<char>`; the functions here
//! move between Rust strings and that model and implement splitting and
//! trimming against recursive definitions.
use vstd::prelude::*;

verus! {

/// The text of each string of `parts`, in order.
pub open spec fn texts(parts: Seq<String>) -> Seq<Seq<char>> {
    Seq::new(parts.len(), |i: int| parts[i]@)
}

/// Number of leading occurrences of `c` in `s`.
pub open spec fn leading_count(s: Seq<char>, c: char) -> nat
    decreases s.len(),
{
    if s.len() > 0 && s[0] == c {
        1 + leading_count(s.drop_first(), c)
    } else {
        0
    }
}

/// Number of trailing occurrences of `c` in `s`.
pub open spec fn trailing_count(s: Seq<char>, c: char) -> nat
    decreases s.len(),
{
    if s.len() > 0 && s.last() == c {
        1 + trailing_count(s.drop_last(), c)
    } else {
        0
    }
}

/// `s` without its leading run of `c`.
pub open spec fn trim_start(s: Seq<char>, c: char) -> Seq<char> {
    s.skip(leading_count(s, c) as int)
}

/// `s` without its leading and trailing runs of `c`.
pub open spec fn trim_both(s: Seq<char>, c: char) -> Seq<char> {
    let rest = trim_start(s, c);
    rest.take(rest.len() - trailing_count(rest, c))
}

/// Index of the first occurrence of `c` in `s`, or `s.len()` where there is none.
pub open spec fn find_char(s: Seq<char>, c: char) -> nat
    decreases s.len(),
{
    if s.len() == 0 || s[0] == c {
        0
    } else {
        1 + find_char(s.drop_first(), c)
    }
}

/// The pieces of `s` between occurrences of `sep`. There is always at least
/// one piece: the empty text splits into one empty piece.
pub open spec fn split_on(s: Seq<char>, sep: char) -> Seq<Seq<char>>
    decreases s.len(),
{
    if s.len() == 0 {
        seq![Seq::<char>::empty()]
    } else {
        let before = split_on(s.drop_last(), sep);
        if s.last() == sep {
            before.push(Seq::<char>::empty())
        } else {
            before.drop_last().push(before.last().push(s.last()))
        }
    }
}

/// `parts` written one after another with `sep` between neighbours.
pub open spec fn joined(parts: Seq<Seq<char>>, sep: Seq<char>) -> Seq<char>
    decreases parts.len(),
{
    if parts.len() == 0 {
        Seq::<char>::empty()
    } else if parts.len() == 1 {
        parts[0]
    } else {
        joined(parts.drop_last(), sep) + sep + parts.last()
    }
}

/// A run of `c` of length `n` at the start of `s`, followed by something
/// else or by the end, is the whole leading run.
pub proof fn lemma_leading_count(s: Seq<char>, c: char, n: nat)
    requires
        n <= s.len(),
        forall|j: int| 0 <= j < n ==> s[j] == c,
        n == s.len() || s[n as int] != c,
    ensures
        leading_count(s, c) == n,
    decreases n,
{
    if n > 0 {
        let rest = s.drop_first();
        assert forall|j: int| 0 <= j < n - 1 implies rest[j] == c by {
            assert(rest[j] == s[j + 1]);
        }
        if n < s.len() {
            assert(rest[n - 1] == s[n as int]);
        }
        lemma_leading_count(rest, c, (n - 1) as nat);
    }
}

/// A run of `c` of length `n` at the end of `s`, preceded by something else
/// or by the start, is the whole trailing run.
pub proof fn lemma_trailing_count(s: Seq<char>, c: char, n: nat)
    requires
        n <= s.len(),
        forall|j: int| s.len() - n <= j < s.len() ==> s[j] == c,
        n == s.len() || s[s.len() - n - 1] != c,
    ensures
        trailing_count(s, c) == n,
    decreases n,
{
    if n > 0 {
        let rest = s.drop_last();
        assert forall|j: int| rest.len() - (n - 1) <= j < rest.len() implies rest[j] == c by {
            assert(rest[j] == s[j]);
        }
        if n < s.len() {
            assert(rest[rest.len() - (n - 1) - 1] == s[s.len() - n - 1]);
        }
        lemma_trailing_count(rest, c, (n - 1) as nat);
    }
}

/// The first occurrence of `c` is where no earlier element is `c`.
pub proof fn lemma_find_char(s: Seq<char>, c: char, n: nat)
    requires
        n <= s.len(),
        forall|j: int| 0 <= j < n ==> s[j] != c,
        n == s.len() || s[n as int] == c,
    ensures
        find_char(s, c) == n,
    decreases n,
{
    if n > 0 {
        let rest = s.drop_first();
        assert(s[0] != c);
        assert forall|j: int| 0 <= j < n - 1 implies rest[j] != c by {
            assert(rest[j] == s[j + 1]);
        }
        if n < s.len() {
            assert(rest[n - 1] == s[n as int]);
        }
        lemma_find_char(rest, c, (n - 1) as nat);
    }
}

/// Whether `prefix` is an element-wise prefix of `whole`.
pub open spec fn is_prefix_of(prefix: Seq<Seq<char>>, whole: Seq<Seq<char>>) -> bool {
    prefix.len() <= whole.len() && whole.take(prefix.len() as int) == prefix
}

/// Whether `c` occurs in none of `parts`.
pub open spec fn free_of(parts: Seq<Seq<char>>, c: char) -> bool {
    forall|i: int, j: int|
        0 <= i < parts.len() && 0 <= j < parts[i].len() ==> (#[trigger] parts[i][j]) != c
}

/// Whether `c` does not occur in `s`.
pub open spec fn lacks(s: Seq<char>, c: char) -> bool {
    forall|j: int| 0 <= j < s.len() ==> s[j] != c
}

/// Splitting gives at least one piece. The separator occurs in no piece,
/// and neither does a character that the text lacks.
pub proof fn lemma_split_pieces(s: Seq<char>, sep: char, c: char)
    requires
        c == sep || lacks(s, c),
    ensures
        split_on(s, sep).len() >= 1,
        free_of(split_on(s, sep), c),
    decreases s.len(),
{
    if s.len() > 0 {
        let rest = s.drop_last();
        assert(c == sep || lacks(rest, c)) by {
            if c != sep {
                assert forall|j: int| 0 <= j < rest.len() implies rest[j] != c by {
                    assert(rest[j] == s[j]);
                }
            }
        }
        lemma_split_pieces(rest, sep, c);
        let before = split_on(rest, sep);
        let pieces = split_on(s, sep);
        assert(s.last() != sep ==> s[s.len() - 1] != c);
        assert forall|i: int, j: int|
            0 <= i < pieces.len() && 0 <= j < pieces[i].len() implies (#[trigger] pieces[i][j])
            != c by {
            if i < before.len() - 1 {
                assert(pieces[i] == before[i]);
                assert(before[i][j] != c);
            } else if s.last() != sep && j < before.last().len() {
                assert(pieces[i][j] == before.last()[j]);
                assert(before[before.len() - 1][j] != c);
            } else if s.last() == sep && i < before.len() {
                assert(pieces[i] == before[i]);
                assert(before[i][j] != c);
            }
        }
    }
}

/// Growing the last part by `c` grows the joined text by `c`.
pub proof fn lemma_joined_grows(parts: Seq<Seq<char>>, sep: Seq<char>, c: char)
    requires
        parts.len() >= 1,
    ensures
        joined(parts.drop_last().push(parts.last().push(c)), sep) == joined(parts, sep).push(c),
{
    let grown = parts.drop_last().push(parts.last().push(c));
    if parts.len() == 1 {
        assert(grown[0] == parts[0].push(c));
    } else {
        assert(grown.drop_last() =~= parts.drop_last());
        assert(joined(grown, sep) =~= joined(parts, sep).push(c));
    }
}

/// Joining the pieces of a split with the separator gives the text back.
pub proof fn lemma_join_split(s: Seq<char>, sep: char)
    ensures
        joined(split_on(s, sep), seq![sep]) == s,
    decreases s.len(),
{
    if s.len() == 0 {
        assert(joined(split_on(s, sep), seq![sep]) =~= s);
    } else {
        let rest = s.drop_last();
        lemma_join_split(rest, sep);
        lemma_split_pieces(rest, sep, sep);
        let before = split_on(rest, sep);
        if s.last() == sep {
            let pieces = before.push(Seq::<char>::empty());
            assert(pieces.drop_last() =~= before);
            assert(joined(pieces, seq![sep]) =~= rest + seq![sep]);
            assert(rest + seq![sep] =~= s);
        } else {
            lemma_joined_grows(before, seq![sep], s.last());
            assert(rest.push(s.last()) =~= s);
        }
    }
}

/// Splitting a text joined from parts that are free of the separator gives
/// the parts back.
pub proof fn lemma_split_join(parts: Seq<Seq<char>>, sep: char)
    requires
        parts.len() >= 1,
        free_of(parts, sep),
    ensures
        split_on(joined(parts, seq![sep]), sep) == parts,
    decreases parts.len(), parts.last().len(),
{
    let text = joined(parts, seq![sep]);
    let front = parts.drop_last();
    let tail = parts.last();
    if tail.len() == 0 {
        if parts.len() == 1 {
            assert(text =~= Seq::<char>::empty());
            assert(split_on(text, sep) =~= parts);
        } else {
            assert(free_of(front, sep)) by {
                assert forall|i: int, j: int|
                    0 <= i < front.len() && 0 <= j < front[i].len() implies (#[trigger] front[i][j])
                    != sep by {
                    assert(parts[i][j] != sep);
                }
            }
            lemma_split_join(front, sep);
            assert(text =~= joined(front, seq![sep]).push(sep));
            assert(text.drop_last() =~= joined(front, seq![sep]));
            assert(split_on(text, sep) =~= front.push(Seq::<char>::empty()));
            assert(tail =~= Seq::<char>::empty());
            assert(front.push(tail) =~= parts);
        }
    } else {
        let c = tail.last();
        let shrunk = front.push(tail.drop_last());
        assert(parts[parts.len() - 1][tail.len() - 1] != sep);
        assert(free_of(shrunk, sep)) by {
            assert forall|i: int, j: int|
                0 <= i < shrunk.len() && 0 <= j < shrunk[i].len() implies (#[trigger] shrunk[i][j])
                != sep by {
                assert(shrunk[i][j] == parts[i][j]);
            }
        }
        assert(shrunk.last().len() < tail.len());
        lemma_split_join(shrunk, sep);
        lemma_joined_grows(shrunk, seq![sep], c);
        assert(shrunk.drop_last() =~= front);
        assert(tail.drop_last().push(c) =~= tail);
        assert(front.push(tail) =~= parts);
        assert(text == joined(shrunk, seq![sep]).push(c));
        assert(text.drop_last() =~= joined(shrunk, seq![sep]));
        assert(split_on(text, sep) =~= parts);
    }
}

/// The trailing run is no longer than the text.
pub proof fn lemma_trailing_bound(s: Seq<char>, c: char)
    ensures
        trailing_count(s, c) <= s.len(),
    decreases s.len(),
{
    if s.len() > 0 && s.last() == c {
        lemma_trailing_bound(s.drop_last(), c);
    }
}

/// Nothing before the first occurrence is `c`, and where the index lies
/// inside the text, `c` stands there.
pub proof fn lemma_find_char_is_first(s: Seq<char>, c: char)
    ensures
        find_char(s, c) <= s.len(),
        lacks(s.take(find_char(s, c) as int), c),
        find_char(s, c) < s.len() ==> s[find_char(s, c) as int] == c,
    decreases s.len(),
{
    if s.len() > 0 && s[0] != c {
        let rest = s.drop_first();
        lemma_find_char_is_first(rest, c);
        let n = find_char(rest, c) as int;
        let front = s.take(n + 1);
        assert forall|j: int| 0 <= j < front.len() implies front[j] != c by {
            if j > 0 {
                assert(s[j] == rest.take(n)[j - 1]);
            }
        }
    }
}

/// A character that is in no part and not in the separator is not in the
/// joined text.
pub proof fn lemma_joined_keeps_absent(parts: Seq<Seq<char>>, sep: Seq<char>, c: char)
    requires
        free_of(parts, c),
        lacks(sep, c),
    ensures
        lacks(joined(parts, sep), c),
    decreases parts.len(),
{
    if parts.len() == 1 {
        assert forall|j: int| 0 <= j < parts[0].len() implies parts[0][j] != c by {
            assert(parts[0][j] != c);
        }
    } else if parts.len() > 1 {
        let front = parts.drop_last();
        assert(free_of(front, c)) by {
            assert forall|i: int, j: int|
                0 <= i < front.len() && 0 <= j < front[i].len() implies (#[trigger] front[i][j])
                != c by {
                assert(parts[i][j] != c);
            }
        }
        lemma_joined_keeps_absent(front, sep, c);
        let text = joined(parts, sep);
        let head = joined(front, sep);
        assert forall|j: int| 0 <= j < text.len() implies text[j] != c by {
            if j < head.len() {
                assert(text[j] == head[j]);
            } else if j < head.len() + sep.len() {
                assert(text[j] == sep[j - head.len()]);
            } else {
                assert(text[j] == parts[parts.len() - 1][j - head.len() - sep.len()]);
            }
        }
    }
}

/// A joined text starts as its first part starts and ends as its last part
/// ends, where those parts are not empty.
pub proof fn lemma_joined_ends(parts: Seq<Seq<char>>, sep: Seq<char>)
    requires
        parts.len() >= 1,
    ensures
        parts[0].len() > 0 ==> joined(parts, sep).len() > 0 && joined(parts, sep)[0] == parts[0][0],
        parts.last().len() > 0 ==> joined(parts, sep).len() > 0 && joined(parts, sep).last()
            == parts.last().last(),
    decreases parts.len(),
{
    if parts.len() > 1 {
        lemma_joined_ends(parts.drop_last(), sep);
        assert(parts.drop_last()[0] == parts[0]);
    }
}

/// Every element of the leading run of `c` is `c`.
pub proof fn lemma_leading_run(s: Seq<char>, c: char, j: int)
    requires
        0 <= j < leading_count(s, c),
    ensures
        j < s.len(),
        s[j] == c,
    decreases s.len(),
{
    if j > 0 {
        lemma_leading_run(s.drop_first(), c, j - 1);
    }
}

/// What follows the leading run of `c`, if anything, is not `c`.
pub proof fn lemma_leading_stop(s: Seq<char>, c: char)
    ensures
        leading_count(s, c) <= s.len(),
        leading_count(s, c) < s.len() ==> s[leading_count(s, c) as int]
            != c,
    decreases s.len(),
{
    if s.len() > 0 && s[0] == c {
        lemma_leading_stop(s.drop_first(), c);
    }
}

/// Where an element passes a test and none behind it does, it is the
/// last of those that pass.
pub proof fn lemma_filter_last<A>(s: Seq<A>, pred: spec_fn(A) -> bool, k: int)
    requires
        0 <= k < s.len(),
        pred(s[k]),
        forall|j: int| k < j < s.len() ==> !pred(s[j]),
    ensures
        s.filter(pred).len() > 0,
        s.filter(pred).last() == s[k],
    decreases s.len(),
{
    reveal(Seq::filter);
    if k < s.len() - 1 {
        let rest = s.drop_last();
        assert(!pred(s[s.len() - 1]));
        assert forall|j: int| k < j < rest.len() implies !pred(rest[j]) by {
            assert(rest[j] == s[j]);
        }
        assert(rest[k] == s[k]);
        lemma_filter_last(rest, pred, k);
    }
}

/// Where no element passes a test, nothing is left of the sequence.
pub proof fn lemma_filter_none<A>(s: Seq<A>, pred: spec_fn(A) -> bool)
    requires
        forall|j: int| 0 <= j < s.len() ==> !pred(s[j]),
    ensures
        s.filter(pred).len() == 0,
    decreases s.len(),
{
    reveal(Seq::filter);
    if s.len() > 0 {
        let rest = s.drop_last();
        assert(!pred(s[s.len() - 1]));
        assert forall|j: int| 0 <= j < rest.len() implies !pred(rest[j]) by {
            assert(rest[j] == s[j]);
        }
        lemma_filter_none(rest, pred);
    }
}

/// Appends one character to a string by `String::push`: afterwards the text
/// is the old text followed by `c`.
#[verifier::external_body]
pub(crate) fn push_char(s: &mut String, c: char)
    ensures
        final(s)@ == old(s)@.push(c),
{
    s.push(c)
}

/// The characters of `s`, in order.
pub fn chars_of(s: &str) -> (out: Vec<char>)
    ensures
        out@ == s@,
{
    let mut out: Vec<char> = Vec::new();
    for c in it: s.chars()
        invariant
            it.seq() == s@,
            out@ == it.seq().take(it.index() as int),
    {
        out.push(c);
    }
    out
}

/// The string that holds `chars[from..to]`.
pub fn string_of(chars: &Vec<char>, from: usize, to: usize) -> (out: String)
    requires
        from <= to <= chars.len(),
    ensures
        out@ == chars@.subrange(from as int, to as int),
{
    let mut out = String::new();
    let mut i: usize = from;
    while i < to
        invariant
            from <= i <= to <= chars.len(),
            out@ == chars@.subrange(from as int, i as int),
        decreases to - i,
    {
        push_char(&mut out, chars[i]);
        i += 1;
    }
    out
}

/// Length of the leading run of `c` in `chars[from..]`.
pub fn count_leading(chars: &Vec<char>, from: usize, c: char) -> (n: usize)
    requires
        from <= chars.len(),
    ensures
        n == leading_count(chars@.skip(from as int), c),
        from + n <= chars.len(),
{
    let mut i: usize = from;
    while i < chars.len() && chars[i] == c
        invariant
            from <= i <= chars.len(),
            forall|j: int| from <= j < i ==> chars[j] == c,
        decreases chars.len() - i,
    {
        i += 1;
    }
    proof {
        lemma_leading_count(chars@.skip(from as int), c, (i - from) as nat);
    }
    i - from
}

/// Length of the trailing run of `c` in `chars[from..to]`.
pub fn count_trailing(chars: &Vec<char>, from: usize, to: usize, c: char) -> (n: usize)
    requires
        from <= to <= chars.len(),
    ensures
        n == trailing_count(chars@.subrange(from as int, to as int), c),
        from + n <= to,
{
    let mut i: usize = to;
    while i > from && chars[i - 1] == c
        invariant
            from <= i <= to <= chars.len(),
            forall|j: int| i <= j < to ==> chars[j] == c,
        decreases i,
    {
        i -= 1;
    }
    proof {
        lemma_trailing_count(chars@.subrange(from as int, to as int), c, (to - i) as nat);
    }
    to - i
}

/// Index of the first `c` in `chars`, or the length where there is none.
pub fn find_first(chars: &Vec<char>, c: char) -> (n: usize)
    ensures
        n == find_char(chars@, c),
        n <= chars.len(),
{
    let mut i: usize = 0;
    while i < chars.len() && chars[i] != c
        invariant
            i <= chars.len(),
            forall|j: int| 0 <= j < i ==> chars[j] != c,
        decreases chars.len() - i,
    {
        i += 1;
    }
    proof {
        lemma_find_char(chars@, c, i as nat);
    }
    i
}

/// Splits `chars[from..to]` at every `sep`.
pub fn split_range(chars: &Vec<char>, from: usize, to: usize, sep: char) -> (out: Vec<String>)
    requires
        from <= to <= chars.len(),
    ensures
        texts(out@) == split_on(chars@.subrange(from as int, to as int), sep),
{
    let mut done: Vec<String> = Vec::new();
    let mut current = String::new();
    let mut i: usize = from;
    proof {
        assert(chars@.subrange(from as int, from as int) =~= Seq::<char>::empty());
        assert(texts(done@).push(current@) =~= seq![Seq::<char>::empty()]);
    }
    while i < to
        invariant
            from <= i <= to <= chars.len(),
            texts(done@).push(current@) == split_on(chars@.subrange(from as int, i as int), sep),
        decreases to - i,
    {
        let ghost before = chars@.subrange(from as int, i as int);
        let ghost after = chars@.subrange(from as int, i + 1);
        let ghost done_before = done@;
        let ghost current_before = current@;
        proof {
            assert(after.drop_last() =~= before);
            assert(after.last() == chars[i as int]);
        }
        if chars[i] == sep {
            done.push(current);
            current = String::new();
            proof {
                assert(texts(done@) =~= texts(done_before).push(current_before));
            }
        } else {
            push_char(&mut current, chars[i]);
            proof {
                let pieces = texts(done_before).push(current_before);
                assert(pieces.drop_last() =~= texts(done_before));
                assert(pieces.last() == current_before);
            }
        }
        i += 1;
    }
    let ghost done_before = done@;
    let ghost last = current@;
    done.push(current);
    proof {
        assert(texts(done@) =~= texts(done_before).push(last));
    }
    done
}

/// Whether `prefix` is an element-wise prefix of `whole`.
pub fn starts_with(whole: &Vec<String>, prefix: &Vec<String>) -> (yes: bool)
    ensures
        yes == is_prefix_of(texts(prefix@), texts(whole@)),
{
    if prefix.len() > whole.len() {
        return false;
    }
    let mut i: usize = 0;
    while i < prefix.len()
        invariant
            i <= prefix.len() <= whole.len(),
            forall|k: int| 0 <= k < i ==> prefix[k]@ == whole[k]@,
        decreases prefix.len() - i,
    {
        if prefix[i] != whole[i] {
            proof {
                let taken = texts(whole@).take(prefix.len() as int);
                assert(taken[i as int] == whole[i as int]@);
                assert(texts(prefix@)[i as int] == prefix[i as int]@);
            }
            return false;
        }
        i += 1;
    }
    proof {
        assert(texts(whole@).take(prefix.len() as int) =~= texts(prefix@));
    }
    true
}

} // verus!
