//! Character-sequence helpers shared by the subtitle parser and writers.

use vstd::prelude::*;
use vstd::std_specs::iter::IteratorSpec;

verus! {

/// The Unicode `White_Space` property: the characters that `str::trim`
/// removes from both ends of a string.
pub open spec fn is_white_space(c: char) -> bool {
    let u = c as u32;
    ||| 0x09 <= u <= 0x0d
    ||| u == 0x20
    ||| u == 0x85
    ||| u == 0xa0
    ||| u == 0x1680
    ||| 0x2000 <= u <= 0x200a
    ||| u == 0x2028
    ||| u == 0x2029
    ||| u == 0x202f
    ||| u == 0x205f
    ||| u == 0x3000
}

/// Executable test of the `White_Space` property.
pub fn white_space(c: char) -> (r: bool)
    ensures
        r == is_white_space(c),
{
    let u = c as u32;
    (0x09 <= u && u <= 0x0d) || u == 0x20 || u == 0x85 || u == 0xa0 || u == 0x1680 || (0x2000
        <= u && u <= 0x200a) || u == 0x2028 || u == 0x2029 || u == 0x202f || u == 0x205f || u
        == 0x3000
}

} // verus!

verus! {

/// The characters of a string, in order.
pub fn chars_of(s: &str) -> (r: Vec<char>)
    ensures
        r@ == s@,
{
    broadcast use vstd::string::group_string_axioms;

    let mut v: Vec<char> = Vec::new();
    let mut it = s.chars();
    loop
        invariant
            v@ + it.remaining() == s@,
            it.obeys_prophetic_iter_laws(),
            it.decrease() is Some,
        ensures
            v@ == s@,
        decreases it.decrease()->0,
    {
        let ghost before = it.remaining();
        match it.next() {
            Some(c) => {
                v.push(c);
                assert(v@ + it.remaining() == s@) by {
                    assert(before == seq![c] + it.remaining());
                }
            },
            None => {
                assert(v@ == s@);
                break ;
            },
        }
    }
    v
}

} // verus!

verus! {

/// Appends one character to a string (`String::push`).
#[verifier::external_body]
pub fn push_char(s: &mut String, c: char)
    ensures
        final(s)@ == old(s)@.push(c),
{
    s.push(c);
}

/// A string holding the given characters, in order.
pub fn string_of(cs: &[char]) -> (r: String)
    ensures
        r@ == cs@,
{
    let mut out = String::new();
    let mut i: usize = 0;
    while i < cs.len()
        invariant
            i <= cs@.len(),
            out@ == cs@.take(i as int),
        decreases cs@.len() - i,
    {
        push_char(&mut out, cs[i]);
        assert(cs@.take(i + 1) == cs@.take(i as int).push(cs@[i as int]));
        i = i + 1;
    }
    assert(cs@.take(cs@.len() as int) == cs@);
    out
}

/// Copy of the characters `s[a..b]`.
pub fn copy_range(s: &[char], a: usize, b: usize) -> (r: Vec<char>)
    requires
        a <= b <= s@.len(),
    ensures
        r@ == s@.subrange(a as int, b as int),
{
    let mut out: Vec<char> = Vec::new();
    let mut i: usize = a;
    while i < b
        invariant
            a <= i <= b <= s@.len(),
            out@ == s@.subrange(a as int, i as int),
        decreases b - i,
    {
        out.push(s[i]);
        assert(s@.subrange(a as int, i + 1) == s@.subrange(a as int, i as int).push(s@[i as int]));
        i = i + 1;
    }
    out
}

/// The views of a sequence of character vectors.
pub open spec fn views(v: Seq<Vec<char>>) -> Seq<Seq<char>> {
    v.map_values(|x: Vec<char>| x@)
}

pub proof fn lemma_views_push(v: Seq<Vec<char>>, x: Vec<char>)
    ensures
        views(v.push(x)) == views(v).push(x@),
{
    assert(views(v.push(x)) =~= views(v).push(x@));
}

// ---------------------------------------------------------------------------
// Trimming
// ---------------------------------------------------------------------------

/// `s` without its leading white space.
pub open spec fn trim_start(s: Seq<char>) -> Seq<char>
    decreases s.len(),
{
    if s.len() > 0 && is_white_space(s[0]) {
        trim_start(s.drop_first())
    } else {
        s
    }
}

/// `s` without its trailing white space.
pub open spec fn trim_end(s: Seq<char>) -> Seq<char>
    decreases s.len(),
{
    if s.len() > 0 && is_white_space(s.last()) {
        trim_end(s.drop_last())
    } else {
        s
    }
}

/// `s` without leading and trailing white space (`str::trim`).
pub open spec fn trim(s: Seq<char>) -> Seq<char> {
    trim_end(trim_start(s))
}

pub proof fn lemma_trim_start_at(s: Seq<char>, a: int)
    requires
        0 <= a <= s.len(),
        forall|k: int| 0 <= k < a ==> is_white_space(#[trigger] s[k]),
        a < s.len() ==> !is_white_space(s[a]),
    ensures
        trim_start(s) == s.subrange(a, s.len() as int),
    decreases a,
{
    if a == 0 {
        assert(s.subrange(0, s.len() as int) =~= s);
    } else {
        let t = s.drop_first();
        assert forall|k: int| 0 <= k < a - 1 implies is_white_space(#[trigger] t[k]) by {
            assert(t[k] == s[k + 1]);
        }
        lemma_trim_start_at(t, a - 1);
        assert(t.subrange(a - 1, t.len() as int) =~= s.subrange(a, s.len() as int));
    }
}

pub proof fn lemma_trim_end_at(s: Seq<char>, b: int)
    requires
        0 <= b <= s.len(),
        forall|k: int| b <= k < s.len() ==> is_white_space(#[trigger] s[k]),
        b > 0 ==> !is_white_space(s[b - 1]),
    ensures
        trim_end(s) == s.subrange(0, b),
    decreases s.len() - b,
{
    if b == s.len() {
        assert(s.subrange(0, b) =~= s);
    } else {
        let t = s.drop_last();
        assert forall|k: int| b <= k < t.len() implies is_white_space(#[trigger] t[k]) by {
            assert(t[k] == s[k]);
        }
        lemma_trim_end_at(t, b);
        assert(t.subrange(0, b) =~= s.subrange(0, b));
    }
}

/// `str::trim` on a character sequence.
pub fn trim_chars(s: &[char]) -> (r: Vec<char>)
    ensures
        r@ == trim(s@),
        r@.len() <= s@.len(),
{
    let n = s.len();
    let mut a: usize = 0;
    while a < n && white_space(s[a])
        invariant
            a <= n == s@.len(),
            forall|k: int| 0 <= k < a ==> is_white_space(#[trigger] s@[k]),
        decreases n - a,
    {
        a = a + 1;
    }
    proof {
        lemma_trim_start_at(s@, a as int);
    }
    let ghost t = s@.subrange(a as int, n as int);
    let mut b: usize = n;
    while b > a && white_space(s[b - 1])
        invariant
            a <= b <= n == s@.len(),
            t == s@.subrange(a as int, n as int),
            forall|k: int| b <= k < n ==> is_white_space(#[trigger] s@[k]),
        decreases b - a,
    {
        b = b - 1;
    }
    proof {
        assert forall|k: int| b - a <= k < t.len() implies is_white_space(#[trigger] t[k]) by {
            assert(t[k] == s@[k + a]);
        }
        if b > a {
            assert(t[b - a - 1] == s@[b - 1]);
        }
        lemma_trim_end_at(t, b - a);
        assert(t.subrange(0, b - a) =~= s@.subrange(a as int, b as int));
    }
    copy_range(s, a, b)
}

} // verus!

verus! {

// ---------------------------------------------------------------------------
// Searching and splitting
// ---------------------------------------------------------------------------

/// `pat` occurs in `s` starting at index `i`.
pub open spec fn occurs_at(s: Seq<char>, pat: Seq<char>, i: int) -> bool {
    &&& 0 <= i
    &&& i + pat.len() <= s.len()
    &&& s.subrange(i, i + pat.len()) == pat
}

/// The first index at or after `start` where the non-empty pattern `pat`
/// occurs in `s`.
pub open spec fn find_from(s: Seq<char>, pat: Seq<char>, start: int) -> Option<int>
    decreases s.len() - start,
{
    if pat.len() == 0 || start < 0 || start + pat.len() > s.len() {
        None
    } else if occurs_at(s, pat, start) {
        Some(start)
    } else {
        find_from(s, pat, start + 1)
    }
}

/// What `find_from` returns: the leftmost occurrence at or after `start`.
pub proof fn lemma_find_from(s: Seq<char>, pat: Seq<char>, start: int)
    requires
        0 <= start,
        pat.len() > 0,
    ensures
        match find_from(s, pat, start) {
            Some(i) => start <= i && occurs_at(s, pat, i) && forall|j: int|
                start <= j < i ==> !occurs_at(s, pat, j),
            None => forall|j: int| start <= j ==> !occurs_at(s, pat, j),
        },
    decreases s.len() - start,
{
    if start + pat.len() > s.len() {
        assert forall|j: int| start <= j implies !occurs_at(s, pat, j) by {}
    } else if occurs_at(s, pat, start) {
    } else {
        lemma_find_from(s, pat, start + 1);
    }
}

/// Does `pat` occur in `s` at index `i`?
pub fn matches_at(s: &[char], pat: &[char], i: usize) -> (r: bool)
    requires
        i <= s@.len(),
    ensures
        r == occurs_at(s@, pat@, i as int),
{
    if pat.len() > s.len() - i {
        return false;
    }
    let n = s.len();
    let mut k: usize = 0;
    while k < pat.len()
        invariant
            n == s@.len(),
            i + pat@.len() <= s@.len(),
            k <= pat@.len(),
            forall|j: int| 0 <= j < k ==> s@[i + j] == pat@[j],
        decreases pat@.len() - k,
    {
        assert(i + k < s@.len());
        if s[i + k] != pat[k] {
            assert(s@.subrange(i as int, i + pat@.len())[k as int] != pat@[k as int]);
            return false;
        }
        k = k + 1;
    }
    assert(s@.subrange(i as int, i + pat@.len()) =~= pat@);
    true
}

/// The first index at or after `start` where `pat` occurs in `s`.
pub fn find_at_or_after(s: &[char], pat: &[char], start: usize) -> (r: Option<usize>)
    requires
        start <= s@.len(),
        pat@.len() > 0,
    ensures
        match r {
            Some(i) => find_from(s@, pat@, start as int) == Some(i as int),
            None => find_from(s@, pat@, start as int) is None,
        },
{
    let mut i: usize = start;
    while i < s.len() && pat.len() <= s.len() - i
        invariant
            start <= i <= s@.len(),
            pat@.len() > 0,
            find_from(s@, pat@, start as int) == find_from(s@, pat@, i as int),
        decreases s@.len() - i,
    {
        if matches_at(s, pat, i) {
            return Some(i);
        }
        i = i + 1;
    }
    None
}

/// `str::split` of `s[start..]` on the non-empty pattern `pat`.
pub open spec fn split_from(s: Seq<char>, pat: Seq<char>, start: int) -> Seq<Seq<char>>
    decreases s.len() - start,
{
    if pat.len() == 0 || start < 0 || start > s.len() {
        seq![s.subrange(start, s.len() as int)]
    } else {
        match find_from(s, pat, start) {
            None => seq![s.subrange(start, s.len() as int)],
            Some(i) => {
                proof {
                    lemma_find_from(s, pat, start);
                }
                seq![s.subrange(start, i)] + split_from(s, pat, i + pat.len())
            },
        }
    }
}

/// The pieces of `s` between the occurrences of `pat` (`str::split`).
pub open spec fn split(s: Seq<char>, pat: Seq<char>) -> Seq<Seq<char>> {
    split_from(s, pat, 0)
}

/// `str::split` on a non-empty pattern.
pub fn split_chars(s: &[char], pat: &[char]) -> (r: Vec<Vec<char>>)
    requires
        pat@.len() > 0,
    ensures
        views(r@) == split(s@, pat@),
        forall|k: int| 0 <= k < r@.len() ==> (#[trigger] r@[k])@.len() <= s@.len(),
{
    let n = s.len();
    let mut pieces: Vec<Vec<char>> = Vec::new();
    let mut start: usize = 0;
    loop
        invariant_except_break
            split(s@, pat@) == views(pieces@) + split_from(s@, pat@, start as int),
        invariant
            n == s@.len(),
            start <= s@.len(),
            pat@.len() > 0,
            forall|k: int| 0 <= k < pieces@.len() ==> (#[trigger] pieces@[k])@.len() <= n,
        ensures
            split(s@, pat@) == views(pieces@),
        decreases s@.len() - start,
    {
        match find_at_or_after(s, pat, start) {
            None => {
                let piece = copy_range(s, start, s.len());
                proof {
                    lemma_views_push(pieces@, piece);
                    assert(views(pieces@) + split_from(s@, pat@, start as int) =~= views(
                        pieces@.push(piece),
                    ));
                }
                pieces.push(piece);
                break ;
            },
            Some(i) => {
                proof {
                    lemma_find_from(s@, pat@, start as int);
                }
                let piece = copy_range(s, start, i);
                proof {
                    lemma_views_push(pieces@, piece);
                    assert(views(pieces@) + split_from(s@, pat@, start as int) =~= views(
                        pieces@.push(piece),
                    ) + split_from(s@, pat@, i + pat@.len()));
                }
                pieces.push(piece);
                start = i + pat.len();
            },
        }
    }
    pieces
}

} // verus!

verus! {

// ---------------------------------------------------------------------------
// Lines and joining
// ---------------------------------------------------------------------------

/// `t` without one trailing carriage return.
pub open spec fn strip_cr(t: Seq<char>) -> Seq<char> {
    if t.len() > 0 && t.last() == '\r' {
        t.drop_last()
    } else {
        t
    }
}

/// `str::lines` of `s[start..]`: pieces ended by `\n` (or `\r\n`); a final
/// line ending adds no empty line, and a last line without `\n` keeps a
/// trailing `\r`.
pub open spec fn lines_from(s: Seq<char>, start: int) -> Seq<Seq<char>>
    decreases s.len() - start,
{
    if start < 0 || start >= s.len() {
        seq![]
    } else {
        match find_from(s, seq!['\n'], start) {
            None => seq![s.subrange(start, s.len() as int)],
            Some(i) => {
                proof {
                    lemma_find_from(s, seq!['\n'], start);
                }
                seq![strip_cr(s.subrange(start, i))] + lines_from(s, i + 1)
            },
        }
    }
}

/// The lines of `s` (`str::lines`).
pub open spec fn lines(s: Seq<char>) -> Seq<Seq<char>> {
    lines_from(s, 0)
}

/// `str::lines` on a character sequence.
pub fn lines_of(s: &[char]) -> (r: Vec<Vec<char>>)
    ensures
        views(r@) == lines(s@),
        forall|k: int| 0 <= k < r@.len() ==> (#[trigger] r@[k])@.len() <= s@.len(),
{
    let n = s.len();
    let nl: Vec<char> = vec!['\n'];
    assert(nl@ == seq!['\n']);
    let mut out: Vec<Vec<char>> = Vec::new();
    let mut start: usize = 0;
    while start < n
        invariant
            n == s@.len(),
            nl@ == seq!['\n'],
            start <= n,
            lines(s@) == views(out@) + lines_from(s@, start as int),
            forall|k: int| 0 <= k < out@.len() ==> (#[trigger] out@[k])@.len() <= n,
        decreases n - start,
    {
        match find_at_or_after(s, nl.as_slice(), start) {
            None => {
                let piece = copy_range(s, start, n);
                proof {
                    lemma_views_push(out@, piece);
                    assert(lines_from(s@, n as int) =~= Seq::<Seq<char>>::empty());
                    assert(views(out@) + lines_from(s@, start as int) =~= views(out@.push(piece))
                        + lines_from(s@, n as int));
                }
                out.push(piece);
                start = n;
            },
            Some(i) => {
                proof {
                    lemma_find_from(s@, seq!['\n'], start as int);
                }
                let end = if i > start && s[i - 1] == '\r' {
                    i - 1
                } else {
                    i
                };
                let piece = copy_range(s, start, end);
                proof {
                    assert(piece@ == strip_cr(s@.subrange(start as int, i as int)));
                    lemma_views_push(out@, piece);
                    assert(views(out@) + lines_from(s@, start as int) =~= views(out@.push(piece))
                        + lines_from(s@, i + 1));
                }
                out.push(piece);
                start = i + 1;
            },
        }
    }
    assert(lines_from(s@, start as int) =~= Seq::<Seq<char>>::empty());
    assert(views(out@) + Seq::<Seq<char>>::empty() =~= views(out@));
    out
}

/// The parts joined with `sep` between neighbours (`[&str]::join`).
pub open spec fn join(parts: Seq<Seq<char>>, sep: Seq<char>) -> Seq<char>
    decreases parts.len(),
{
    if parts.len() == 0 {
        seq![]
    } else if parts.len() == 1 {
        parts[0]
    } else {
        join(parts.drop_last(), sep) + sep + parts.last()
    }
}

/// The parts `parts[from..]` joined with the single character `sep`.
pub fn join_from(parts: &[Vec<char>], from: usize, sep: char) -> (r: Vec<char>)
    requires
        from <= parts@.len(),
    ensures
        r@ == join(views(parts@).subrange(from as int, parts@.len() as int), seq![sep]),
{
    let n = parts.len();
    let mut out: Vec<char> = Vec::new();
    let mut k: usize = from;
    while k < n
        invariant
            n == parts@.len(),
            from <= k <= n,
            out@ == join(views(parts@).subrange(from as int, k as int), seq![sep]),
        decreases n - k,
    {
        let ghost before = views(parts@).subrange(from as int, k as int);
        let ghost after = views(parts@).subrange(from as int, k + 1);
        assert(after.drop_last() =~= before);
        assert(after.last() == parts@[k as int]@);
        if k > from {
            out.push(sep);
        }
        let part = &parts[k];
        let mut j: usize = 0;
        let ghost base = out@;
        while j < part.len()
            invariant
                j <= part@.len(),
                out@ == base + part@.take(j as int),
            decreases part@.len() - j,
        {
            out.push(part[j]);
            assert(part@.take(j + 1) == part@.take(j as int).push(part@[j as int]));
            j = j + 1;
        }
        assert(part@.take(part@.len() as int) == part@);
        proof {
            if k == from {
                assert(after.len() == 1);
                assert(before.len() == 0);
                assert(out@ =~= after[0]);
            } else {
                assert(out@ =~= join(before, seq![sep]) + seq![sep] + after.last());
            }
        }
        k = k + 1;
    }
    out
}

} // verus!

verus! {

// ---------------------------------------------------------------------------
// Facts used to read back what the writers produce
// ---------------------------------------------------------------------------

/// The leftmost occurrence at or after `start` is at `j`.
pub proof fn lemma_find_exact(s: Seq<char>, pat: Seq<char>, start: int, j: int)
    requires
        pat.len() > 0,
        0 <= start <= j,
        occurs_at(s, pat, j),
        forall|k: int| start <= k < j ==> !occurs_at(s, pat, k),
    ensures
        find_from(s, pat, start) == Some(j),
{
    lemma_find_from(s, pat, start);
    match find_from(s, pat, start) {
        Some(i) => {
            if i < j {
                assert(!occurs_at(s, pat, i));
            } else if i > j {
                assert(!occurs_at(s, pat, j));
            }
        },
        None => {
            assert(!occurs_at(s, pat, j));
        },
    }
}

/// There is no occurrence at or after `start`.
pub proof fn lemma_find_none(s: Seq<char>, pat: Seq<char>, start: int)
    requires
        pat.len() > 0,
        0 <= start,
        forall|k: int| start <= k ==> !occurs_at(s, pat, k),
    ensures
        find_from(s, pat, start) is None,
{
    lemma_find_from(s, pat, start);
    match find_from(s, pat, start) {
        Some(i) => {
            assert(!occurs_at(s, pat, i));
        },
        None => {},
    }
}

/// A one-character pattern occurs exactly where that character is.
pub proof fn lemma_occurs_single(s: Seq<char>, c: char, k: int)
    ensures
        occurs_at(s, seq![c], k) == (0 <= k < s.len() && s[k] == c),
{
    if 0 <= k < s.len() {
        if s[k] == c {
            assert(s.subrange(k, k + 1) =~= seq![c]);
        } else {
            assert(s.subrange(k, k + 1)[0] == s[k]);
        }
    }
}

/// Splitting at a piece of `b` characters followed by the pattern.
pub proof fn lemma_split_front(s: Seq<char>, pat: Seq<char>, start: int, b: int)
    requires
        pat.len() > 0,
        0 <= start,
        0 <= b,
        occurs_at(s, pat, start + b),
        forall|k: int| start <= k < start + b ==> !occurs_at(s, pat, k),
    ensures
        split_from(s, pat, start) == seq![s.subrange(start, start + b)] + split_from(
            s,
            pat,
            start + b + pat.len(),
        ),
{
    lemma_find_exact(s, pat, start, start + b);
}

/// Splitting a rest without the pattern gives the rest.
pub proof fn lemma_split_last(s: Seq<char>, pat: Seq<char>, start: int)
    requires
        pat.len() > 0,
        0 <= start <= s.len(),
        forall|k: int| start <= k ==> !occurs_at(s, pat, k),
    ensures
        split_from(s, pat, start) == seq![s.subrange(start, s.len() as int)],
{
    lemma_find_none(s, pat, start);
}

/// A line ended by the `\n` at `j`.
pub proof fn lemma_lines_front(s: Seq<char>, start: int, j: int)
    requires
        0 <= start <= j < s.len(),
        s[j] == '\n',
        forall|k: int| start <= k < j ==> s[k] != '\n',
    ensures
        lines_from(s, start) == seq![strip_cr(s.subrange(start, j))] + lines_from(s, j + 1),
{
    lemma_occurs_single(s, '\n', j);
    assert forall|k: int| start <= k < j implies !occurs_at(s, seq!['\n'], k) by {
        lemma_occurs_single(s, '\n', k);
    }
    lemma_find_exact(s, seq!['\n'], start, j);
}

/// The last line, without a line end.
pub proof fn lemma_lines_last(s: Seq<char>, start: int)
    requires
        0 <= start < s.len(),
        forall|k: int| start <= k < s.len() ==> s[k] != '\n',
    ensures
        lines_from(s, start) == seq![s.subrange(start, s.len() as int)],
{
    assert forall|k: int| start <= k implies !occurs_at(s, seq!['\n'], k) by {
        lemma_occurs_single(s, '\n', k);
    }
    lemma_find_none(s, seq!['\n'], start);
}

} // verus!
