//! Character-level text primitives shared by the host matcher and the
//! proxy-settings formats: positions of a character, ASCII case folding,
//! whitespace trimming and line splitting, each stated over `Seq<char>`.
use vstd::prelude::*;
use vstd::string::*;

verus! {

/// Position of the first `c` in `s`, or -1.
pub open spec fn index_of(s: Seq<char>, c: char) -> int
    decreases s.len(),
{
    if s.len() == 0 {
        -1
    } else if s[0] == c {
        0
    } else {
        let r = index_of(s.drop_first(), c);
        if r < 0 {
            -1
        } else {
            r + 1
        }
    }
}

/// Position of the last `c` in `s`, or -1.
pub open spec fn last_index_of(s: Seq<char>, c: char) -> int
    decreases s.len(),
{
    if s.len() == 0 {
        -1
    } else if s.last() == c {
        s.len() - 1
    } else {
        last_index_of(s.drop_last(), c)
    }
}

pub proof fn lemma_index_of(s: Seq<char>, c: char)
    ensures
        -1 <= index_of(s, c) < s.len(),
        index_of(s, c) == -1 ==> forall|j: int| 0 <= j < s.len() ==> s[j] != c,
        index_of(s, c) >= 0 ==> s[index_of(s, c)] == c,
        forall|j: int| 0 <= j < index_of(s, c) ==> s[j] != c,
    decreases s.len(),
{
    if s.len() > 0 && s[0] != c {
        lemma_index_of(s.drop_first(), c);
        assert forall|j: int| 0 < j < s.len() implies s[j] == s.drop_first()[j - 1] by {}
    }
}

pub proof fn lemma_last_index_of(s: Seq<char>, c: char)
    ensures
        -1 <= last_index_of(s, c) < s.len(),
        last_index_of(s, c) == -1 ==> forall|j: int| 0 <= j < s.len() ==> s[j] != c,
        last_index_of(s, c) >= 0 ==> s[last_index_of(s, c)] == c,
        forall|j: int| last_index_of(s, c) < j < s.len() ==> s[j] != c,
    decreases s.len(),
{
    if s.len() > 0 && s.last() != c {
        lemma_last_index_of(s.drop_last(), c);
        assert forall|j: int| 0 <= j < s.len() - 1 implies s[j] == s.drop_last()[j] by {}
    }
}

/// The first position of `c` is pinned down by "is `c`" and "no `c` before it".
pub proof fn lemma_index_of_unique(s: Seq<char>, c: char, i: int)
    requires
        -1 <= i < s.len(),
        i >= 0 ==> s[i] == c,
        forall|j: int| 0 <= j < s.len() && (i < 0 || j < i) ==> s[j] != c,
    ensures
        index_of(s, c) == i,
{
    lemma_index_of(s, c);
}

/// The last position of `c` is pinned down by "is `c`" and "no `c` after it".
pub proof fn lemma_last_index_of_unique(s: Seq<char>, c: char, i: int)
    requires
        -1 <= i < s.len(),
        i >= 0 ==> s[i] == c,
        forall|j: int| i < j < s.len() ==> s[j] != c,
    ensures
        last_index_of(s, c) == i,
{
    lemma_last_index_of(s, c);
}

/// `str::split_once` on a character: the text before and after its first occurrence.
pub open spec fn split_first(s: Seq<char>, c: char) -> Option<(Seq<char>, Seq<char>)> {
    let i = index_of(s, c);
    if i < 0 {
        None
    } else {
        Some((s.take(i), s.skip(i + 1)))
    }
}

/// `str::rsplit_once` on a character: the text before and after its last occurrence.
pub open spec fn split_last(s: Seq<char>, c: char) -> Option<(Seq<char>, Seq<char>)> {
    let i = last_index_of(s, c);
    if i < 0 {
        None
    } else {
        Some((s.take(i), s.skip(i + 1)))
    }
}

/// The ASCII-lowercased code of a character (other characters are unchanged).
pub open spec fn ascii_fold(c: char) -> u32 {
    if 65 <= (c as u32) && (c as u32) <= 90 {
        ((c as u32) + 32) as u32
    } else {
        c as u32
    }
}

/// `str::eq_ignore_ascii_case`, stated on characters.
pub open spec fn eq_ignore_ascii_case(a: Seq<char>, b: Seq<char>) -> bool {
    a.len() == b.len() && forall|i: int| 0 <= i < a.len() ==> ascii_fold(a[i]) == ascii_fold(b[i])
}

/// `str::starts_with` with a string pattern.
pub open spec fn starts_with(s: Seq<char>, p: Seq<char>) -> bool {
    p.len() <= s.len() && s.take(p.len() as int) == p
}

/// `char::is_whitespace`: the Unicode `White_Space` property.
pub open spec fn is_whitespace(c: char) -> bool {
    let u = c as u32;
    ||| 9 <= u <= 13
    ||| u == 32
    ||| u == 0x85
    ||| u == 0xA0
    ||| u == 0x1680
    ||| 0x2000 <= u <= 0x200A
    ||| u == 0x2028
    ||| u == 0x2029
    ||| u == 0x202F
    ||| u == 0x205F
    ||| u == 0x3000
}

/// What a trim removes: whitespace, or one given character.
pub enum Trim {
    Whitespace,
    Char(char),
}

pub open spec fn trimmed_by(t: Trim, c: char) -> bool {
    match t {
        Trim::Whitespace => is_whitespace(c),
        Trim::Char(d) => c == d,
    }
}

pub open spec fn trim_start_by(s: Seq<char>, t: Trim) -> Seq<char>
    decreases s.len(),
{
    if s.len() > 0 && trimmed_by(t, s[0]) {
        trim_start_by(s.drop_first(), t)
    } else {
        s
    }
}

pub open spec fn trim_end_by(s: Seq<char>, t: Trim) -> Seq<char>
    decreases s.len(),
{
    if s.len() > 0 && trimmed_by(t, s.last()) {
        trim_end_by(s.drop_last(), t)
    } else {
        s
    }
}

/// `str::trim_start`.
pub open spec fn trim_start(s: Seq<char>) -> Seq<char> {
    trim_start_by(s, Trim::Whitespace)
}

/// `str::trim`.
pub open spec fn trim(s: Seq<char>) -> Seq<char> {
    trim_end_by(trim_start_by(s, Trim::Whitespace), Trim::Whitespace)
}

/// `str::trim_matches` with one character.
pub open spec fn trim_matches(s: Seq<char>, c: char) -> Seq<char> {
    trim_end_by(trim_start_by(s, Trim::Char(c)), Trim::Char(c))
}

/// One line as `str::lines` yields it: the text before a `'\n'`, without one
/// `'\r'` that ends it.
pub open spec fn strip_cr(l: Seq<char>) -> Seq<char> {
    if l.len() > 0 && l.last() == '\r' {
        l.drop_last()
    } else {
        l
    }
}

/// `str::lines`: split at each `'\n'`, drop one `'\r'` before it; a last
/// segment without `'\n'` is kept as it is, and a final `'\n'` opens no line.
pub open spec fn lines(s: Seq<char>) -> Seq<Seq<char>>
    decreases s.len(),
{
    let i = index_of(s, '\n');
    if s.len() == 0 {
        Seq::empty()
    } else if i < 0 || i >= s.len() {
        seq![s]
    } else {
        seq![strip_cr(s.take(i))] + lines(s.skip(i + 1))
    }
}

/// The characters of a string slice, one by one.
pub fn chars_of(s: &str) -> (v: Vec<char>)
    ensures
        v@ == s@,
{
    let n = s.unicode_len();
    let mut v: Vec<char> = Vec::new();
    let mut i: usize = 0;
    while i < n
        invariant
            n == s@.len(),
            i <= n,
            v@ == s@.take(i as int),
        decreases n - i,
    {
        let c = s.get_char(i);
        v.push(c);
        i = i + 1;
        assert(v@ =~= s@.take(i as int));
    }
    assert(v@ =~= s@);
    v
}

/// The first position of `c` in `v[lo..hi]`.
pub fn find_char(v: &Vec<char>, lo: usize, hi: usize, c: char) -> (r: Option<usize>)
    requires
        lo <= hi <= v@.len(),
    ensures
        match r {
            None => index_of(v@.subrange(lo as int, hi as int), c) == -1,
            Some(i) => lo <= i < hi && index_of(v@.subrange(lo as int, hi as int), c) == i - lo,
        },
{
    let ghost s = v@.subrange(lo as int, hi as int);
    let mut i = lo;
    while i < hi
        invariant
            lo <= i <= hi <= v@.len(),
            s == v@.subrange(lo as int, hi as int),
            forall|j: int| lo <= j < i ==> v@[j] != c,
        decreases hi - i,
    {
        if v[i] == c {
            proof {
                lemma_index_of_unique(s, c, i - lo);
            }
            return Some(i);
        }
        i = i + 1;
    }
    proof {
        lemma_index_of_unique(s, c, -1);
    }
    None
}

/// The last position of `c` in `v[lo..hi]`.
pub fn rfind_char(v: &Vec<char>, lo: usize, hi: usize, c: char) -> (r: Option<usize>)
    requires
        lo <= hi <= v@.len(),
    ensures
        match r {
            None => last_index_of(v@.subrange(lo as int, hi as int), c) == -1,
            Some(i) => lo <= i < hi && last_index_of(v@.subrange(lo as int, hi as int), c) == i
                - lo,
        },
{
    let ghost s = v@.subrange(lo as int, hi as int);
    let mut i = hi;
    while i > lo
        invariant
            lo <= i <= hi <= v@.len(),
            s == v@.subrange(lo as int, hi as int),
            forall|j: int| i <= j < hi ==> v@[j] != c,
        decreases i - lo,
    {
        if v[i - 1] == c {
            proof {
                lemma_last_index_of_unique(s, c, i - 1 - lo);
            }
            return Some(i - 1);
        }
        i = i - 1;
    }
    proof {
        lemma_last_index_of_unique(s, c, -1);
    }
    None
}

fn fold_code(c: char) -> (r: u32)
    ensures
        r == ascii_fold(c),
{
    let u = c as u32;
    if 65 <= u && u <= 90 {
        u + 32
    } else {
        u
    }
}

/// Whether `a[alo..ahi]` and `b[blo..bhi]` are equal up to ASCII case.
pub fn range_eq_ignore_case(
    a: &Vec<char>,
    alo: usize,
    ahi: usize,
    b: &Vec<char>,
    blo: usize,
    bhi: usize,
) -> (r: bool)
    requires
        alo <= ahi <= a@.len(),
        blo <= bhi <= b@.len(),
    ensures
        r == eq_ignore_ascii_case(
            a@.subrange(alo as int, ahi as int),
            b@.subrange(blo as int, bhi as int),
        ),
{
    let ghost sa = a@.subrange(alo as int, ahi as int);
    let ghost sb = b@.subrange(blo as int, bhi as int);
    if ahi - alo != bhi - blo {
        return false;
    }
    let n = ahi - alo;
    let mut i: usize = 0;
    while i < n
        invariant
            n == ahi - alo == bhi - blo,
            alo <= ahi <= a@.len(),
            blo <= bhi <= b@.len(),
            sa == a@.subrange(alo as int, ahi as int),
            sb == b@.subrange(blo as int, bhi as int),
            i <= n,
            forall|j: int| 0 <= j < i ==> ascii_fold(sa[j]) == ascii_fold(sb[j]),
        decreases n - i,
    {
        if fold_code(a[alo + i]) != fold_code(b[blo + i]) {
            assert(ascii_fold(sa[i as int]) != ascii_fold(sb[i as int]));
            return false;
        }
        i = i + 1;
    }
    true
}

/// Whether `a[alo..ahi]` and `b[blo..bhi]` are the same text.
pub fn range_eq(a: &Vec<char>, alo: usize, ahi: usize, b: &Vec<char>, blo: usize, bhi: usize) -> (r:
    bool)
    requires
        alo <= ahi <= a@.len(),
        blo <= bhi <= b@.len(),
    ensures
        r == (a@.subrange(alo as int, ahi as int) == b@.subrange(blo as int, bhi as int)),
{
    let ghost sa = a@.subrange(alo as int, ahi as int);
    let ghost sb = b@.subrange(blo as int, bhi as int);
    if ahi - alo != bhi - blo {
        assert(sa.len() != sb.len());
        return false;
    }
    let n = ahi - alo;
    let mut i: usize = 0;
    while i < n
        invariant
            n == ahi - alo == bhi - blo,
            alo <= ahi <= a@.len(),
            blo <= bhi <= b@.len(),
            sa == a@.subrange(alo as int, ahi as int),
            sb == b@.subrange(blo as int, bhi as int),
            i <= n,
            forall|j: int| 0 <= j < i ==> sa[j] == sb[j],
        decreases n - i,
    {
        if a[alo + i] != b[blo + i] {
            assert(sa[i as int] != sb[i as int]);
            return false;
        }
        i = i + 1;
    }
    assert(sa =~= sb);
    true
}

/// Whether `a[lo..hi]` is exactly the text `t`.
pub fn range_is(a: &Vec<char>, lo: usize, hi: usize, t: &Vec<char>) -> (r: bool)
    requires
        lo <= hi <= a@.len(),
    ensures
        r == (a@.subrange(lo as int, hi as int) == t@),
{
    let r = range_eq(a, lo, hi, t, 0, t.len());
    assert(t@.subrange(0, t@.len() as int) =~= t@);
    r
}

/// Splitting `h + [c] + p` at its last `c` gives back `h` and `p` when `p` has no `c`.
pub proof fn lemma_split_last_join(h: Seq<char>, c: char, p: Seq<char>)
    requires
        !p.contains(c),
    ensures
        split_last(h + seq![c] + p, c) == Some((h, p)),
{
    let s = h + seq![c] + p;
    assert forall|j: int| h.len() < j < s.len() implies s[j] != c by {
        assert(s[j] == p[j - h.len() - 1]);
    }
    lemma_last_index_of_unique(s, c, h.len() as int);
    assert(s.take(h.len() as int) =~= h);
    assert(s.skip(h.len() as int + 1) =~= p);
}

/// A text without `c` does not split at `c`.
pub proof fn lemma_split_last_none(s: Seq<char>, c: char)
    requires
        !s.contains(c),
    ensures
        split_last(s, c) is None,
{
    lemma_last_index_of_unique(s, c, -1);
}

/// Splitting `k + [c] + v` at its first `c` gives back `k` and `v` when `k` has no `c`.
pub proof fn lemma_split_first_join(k: Seq<char>, c: char, v: Seq<char>)
    requires
        !k.contains(c),
    ensures
        split_first(k + seq![c] + v, c) == Some((k, v)),
{
    let s = k + seq![c] + v;
    assert forall|j: int| 0 <= j < k.len() implies s[j] != c by {
        assert(s[j] == k[j]);
    }
    lemma_index_of_unique(s, c, k.len() as int);
    assert(s.take(k.len() as int) =~= k);
    assert(s.skip(k.len() as int + 1) =~= v);
}

fn is_trimmed(t: &Trim, c: char) -> (r: bool)
    ensures
        r == trimmed_by(*t, c),
{
    match t {
        Trim::Whitespace => {
            let u = c as u32;
            (9 <= u && u <= 13) || u == 32 || u == 0x85 || u == 0xA0 || u == 0x1680 || (0x2000
                <= u && u <= 0x200A) || u == 0x2028 || u == 0x2029 || u == 0x202F || u == 0x205F
                || u == 0x3000
        },
        Trim::Char(d) => c == *d,
    }
}

/// Start of what remains of `v[lo..hi]` after trimming its front.
pub fn trim_start_at(v: &Vec<char>, lo: usize, hi: usize, t: &Trim) -> (r: usize)
    requires
        lo <= hi <= v@.len(),
    ensures
        lo <= r <= hi,
        v@.subrange(r as int, hi as int) == trim_start_by(v@.subrange(lo as int, hi as int), *t),
{
    let mut i = lo;
    while i < hi && is_trimmed(t, v[i])
        invariant
            lo <= i <= hi <= v@.len(),
            trim_start_by(v@.subrange(i as int, hi as int), *t) == trim_start_by(
                v@.subrange(lo as int, hi as int),
                *t,
            ),
        decreases hi - i,
    {
        assert(v@.subrange(i as int, hi as int).drop_first() =~= v@.subrange(
            i + 1,
            hi as int,
        ));
        i = i + 1;
    }
    i
}

/// End of what remains of `v[lo..hi]` after trimming its back.
pub fn trim_end_at(v: &Vec<char>, lo: usize, hi: usize, t: &Trim) -> (r: usize)
    requires
        lo <= hi <= v@.len(),
    ensures
        lo <= r <= hi,
        v@.subrange(lo as int, r as int) == trim_end_by(v@.subrange(lo as int, hi as int), *t),
{
    let mut i = hi;
    while i > lo && is_trimmed(t, v[i - 1])
        invariant
            lo <= i <= hi <= v@.len(),
            trim_end_by(v@.subrange(lo as int, i as int), *t) == trim_end_by(
                v@.subrange(lo as int, hi as int),
                *t,
            ),
        decreases i - lo,
    {
        assert(v@.subrange(lo as int, i as int).drop_last() =~= v@.subrange(
            lo as int,
            i - 1,
        ));
        i = i - 1;
    }
    i
}

/// `v[lo..hi]` trimmed at both ends.
pub fn trim_at(v: &Vec<char>, lo: usize, hi: usize, t: &Trim) -> (r: (usize, usize))
    requires
        lo <= hi <= v@.len(),
    ensures
        lo <= r.0 <= r.1 <= hi,
        v@.subrange(r.0 as int, r.1 as int) == trim_end_by(
            trim_start_by(v@.subrange(lo as int, hi as int), *t),
            *t,
        ),
{
    let a = trim_start_at(v, lo, hi, t);
    let b = trim_end_at(v, a, hi, t);
    (a, b)
}

/// The spans of `v` that `str::lines` yields, in order.
pub fn line_spans(v: &Vec<char>) -> (r: Vec<(usize, usize)>)
    ensures
        r@.len() == lines(v@).len(),
        forall|k: int| 0 <= k < r@.len() ==> #[trigger] r@[k].0 <= r@[k].1 <= v@.len(),
        forall|k: int|
            0 <= k < r@.len() ==> v@.subrange(r@[k].0 as int, r@[k].1 as int) == #[trigger] lines(
                v@,
            )[k],
{
    let n = v.len();
    let mut r: Vec<(usize, usize)> = Vec::new();
    let ghost mut done: Seq<Seq<char>> = Seq::empty();
    let mut pos: usize = 0;
    assert(v@.subrange(0, n as int) =~= v@);
    while pos < n
        invariant
            n == v@.len(),
            pos <= n,
            r@.len() == done.len(),
            forall|k: int| 0 <= k < r@.len() ==> #[trigger] r@[k].0 <= r@[k].1 <= v@.len(),
            forall|k: int|
                0 <= k < r@.len() ==> v@.subrange(r@[k].0 as int, r@[k].1 as int) == #[trigger] done[k],
            lines(v@) == done + lines(v@.subrange(pos as int, n as int)),
        decreases n - pos,
    {
        let ghost rest = v@.subrange(pos as int, n as int);
        match find_char(v, pos, n, '\n') {
            None => {
                let ghost old_done = done;
                proof {
                    assert(lines(rest) == seq![rest]);
                    assert(rest =~= v@.subrange(pos as int, n as int));
                    done = done.push(rest);
                    assert forall|k: int| 0 <= k < old_done.len() implies done[k] == old_done[k] by {}
                    assert(lines(v@.subrange(n as int, n as int)) =~= Seq::<Seq<char>>::empty());
                    assert(lines(v@) =~= done + lines(v@.subrange(n as int, n as int)));
                }
                let ghost old_r = r@;
                r.push((pos, n));
                assert forall|k: int| 0 <= k < r@.len() implies v@.subrange(r@[k].0 as int, r@[k].1 as int) == #[trigger] done[k] by {
                    if k < old_r.len() {
                        assert(r@[k] == old_r[k]);
                        assert(done[k] == old_done[k]);
                    }
                }
                pos = n;
            },
            Some(j) => {
                let end = if j > pos && v[j - 1] == '\r' {
                    j - 1
                } else {
                    j
                };
                let ghost old_done = done;
                proof {
                    let line = rest.take(j - pos);
                    assert(line =~= v@.subrange(pos as int, j as int));
                    assert(strip_cr(line) =~= v@.subrange(pos as int, end as int));
                    assert(rest.skip(j - pos + 1) =~= v@.subrange(j + 1, n as int));
                    assert(lines(rest) == seq![strip_cr(line)] + lines(rest.skip(j - pos + 1)));
                    done = done.push(strip_cr(line));
                    assert forall|k: int| 0 <= k < old_done.len() implies done[k] == old_done[k] by {}
                    assert(lines(v@) =~= done + lines(v@.subrange(j + 1, n as int)));
                }
                let ghost old_r = r@;
                r.push((pos, end));
                assert forall|k: int| 0 <= k < r@.len() implies v@.subrange(r@[k].0 as int, r@[k].1 as int) == #[trigger] done[k] by {
                    if k < old_r.len() {
                        assert(r@[k] == old_r[k]);
                        assert(done[k] == old_done[k]);
                    }
                }
                pos = j + 1;
            },
        }
    }
    proof {
        assert(lines(v@.subrange(pos as int, n as int)) =~= Seq::<Seq<char>>::empty());
        assert(done =~= lines(v@));
        assert forall|k: int| 0 <= k < r@.len() implies v@.subrange(r@[k].0 as int, r@[k].1 as int) == #[trigger] lines(v@)[k] by {
            assert(done[k] == lines(v@)[k]);
        }
    }
    r
}

/// The text `v[lo..hi]` as a `String`.
pub fn string_of(s: &str, v: &Vec<char>, lo: usize, hi: usize) -> (r: String)
    requires
        v@ == s@,
        lo <= hi <= v@.len(),
    ensures
        r@ == s@.subrange(lo as int, hi as int),
{
    let sub = s.substring_char(lo, hi);
    sub.to_owned()
}

/// Position of the first whitespace character in `s`, or -1.
pub open spec fn index_of_whitespace(s: Seq<char>) -> int
    decreases s.len(),
{
    if s.len() == 0 {
        -1
    } else if is_whitespace(s[0]) {
        0
    } else {
        let r = index_of_whitespace(s.drop_first());
        if r < 0 {
            -1
        } else {
            r + 1
        }
    }
}

pub proof fn lemma_index_of_whitespace(s: Seq<char>)
    ensures
        -1 <= index_of_whitespace(s) < s.len(),
        index_of_whitespace(s) >= 0 ==> is_whitespace(s[index_of_whitespace(s)]),
        forall|j: int|
            0 <= j < s.len() && (index_of_whitespace(s) < 0 || j < index_of_whitespace(s))
                ==> !is_whitespace(s[j]),
    decreases s.len(),
{
    if s.len() > 0 && !is_whitespace(s[0]) {
        lemma_index_of_whitespace(s.drop_first());
        assert forall|j: int| 0 < j < s.len() implies s[j] == s.drop_first()[j - 1] by {}
    }
}

/// The first position of a whitespace character in `v[lo..hi]`.
pub fn find_whitespace(v: &Vec<char>, lo: usize, hi: usize) -> (r: Option<usize>)
    requires
        lo <= hi <= v@.len(),
    ensures
        match r {
            None => index_of_whitespace(v@.subrange(lo as int, hi as int)) == -1,
            Some(i) => lo <= i < hi && index_of_whitespace(v@.subrange(lo as int, hi as int)) == i
                - lo,
        },
{
    let ghost s = v@.subrange(lo as int, hi as int);
    let ws = Trim::Whitespace;
    let mut i = lo;
    while i < hi
        invariant
            lo <= i <= hi <= v@.len(),
            s == v@.subrange(lo as int, hi as int),
            ws == Trim::Whitespace,
            forall|j: int| lo <= j < i ==> !is_whitespace(v@[j]),
        decreases hi - i,
    {
        if is_trimmed(&ws, v[i]) {
            proof {
                lemma_index_of_whitespace(s);
                let k = index_of_whitespace(s);
                if k != i - lo {
                    if k < 0 || k > i - lo {
                        assert(s[i - lo] == v@[i as int]);
                    } else {
                        assert(s[k] == v@[lo + k]);
                    }
                }
            }
            return Some(i);
        }
        i = i + 1;
    }
    proof {
        lemma_index_of_whitespace(s);
        let k = index_of_whitespace(s);
        if k >= 0 {
            assert(s[k] == v@[lo + k]);
        }
    }
    None
}

/// The first `c` of a text that has one is found at the same place when text is appended.
pub proof fn lemma_index_of_append(a: Seq<char>, t: Seq<char>, c: char)
    requires
        index_of(a, c) >= 0,
    ensures
        index_of(a + t, c) == index_of(a, c),
{
    lemma_index_of(a, c);
    let i = index_of(a, c);
    assert forall|j: int| 0 <= j < (a + t).len() && (i < 0 || j < i) implies (a + t)[j] != c by {
        assert((a + t)[j] == a[j]);
    }
    lemma_index_of_unique(a + t, c, i);
}

/// Appending a line and its `'\n'` to text that is empty or ends with `'\n'`
/// adds exactly that line (without a `'\r'` ending it) to `lines`.
pub proof fn lemma_lines_append_line(a: Seq<char>, l: Seq<char>)
    requires
        a.len() == 0 || a.last() == '\n',
        !l.contains('\n'),
    ensures
        lines(a + l + seq!['\n']) == lines(a) + seq![strip_cr(l)],
    decreases a.len(),
{
    let s = a + l + seq!['\n'];
    if a.len() == 0 {
        assert(s =~= l + seq!['\n']);
        assert forall|j: int| 0 <= j < s.len() && j < l.len() implies s[j] != '\n' by {
            assert(s[j] == l[j]);
        }
        lemma_index_of_unique(s, '\n', l.len() as int);
        assert(s.take(l.len() as int) =~= l);
        assert(s.skip(l.len() as int + 1) =~= Seq::<char>::empty());
        assert(lines(Seq::<char>::empty()) =~= Seq::<Seq<char>>::empty());
        assert(lines(a) =~= Seq::<Seq<char>>::empty());
        assert(lines(s) =~= lines(a) + seq![strip_cr(l)]);
    } else {
        lemma_index_of(a, '\n');
        assert(a[a.len() - 1] == '\n');
        if index_of(a, '\n') < 0 {
            assert(false);
        }
        let i = index_of(a, '\n');
        lemma_index_of_append(a, l + seq!['\n'], '\n');
        assert(s =~= a + (l + seq!['\n']));
        let rest = a.skip(i + 1);
        assert(s.take(i) =~= a.take(i));
        assert(s.skip(i + 1) =~= rest + l + seq!['\n']);
        if rest.len() > 0 {
            assert(rest.last() == a.last());
        }
        lemma_lines_append_line(rest, l);
        assert(lines(a) == seq![strip_cr(a.take(i))] + lines(rest));
        assert(lines(s) == seq![strip_cr(s.take(i))] + lines(s.skip(i + 1)));
        assert(lines(s) =~= lines(a) + seq![strip_cr(l)]);
    }
}

/// Trimming the front leaves a suffix of the text.
pub proof fn lemma_trim_start_is_suffix(s: Seq<char>, t: Trim)
    ensures
        trim_start_by(s, t).len() <= s.len(),
        trim_start_by(s, t) == s.skip(s.len() - trim_start_by(s, t).len()),
    decreases s.len(),
{
    if s.len() > 0 && trimmed_by(t, s[0]) {
        lemma_trim_start_is_suffix(s.drop_first(), t);
        let r = trim_start_by(s.drop_first(), t);
        assert(s.drop_first().skip(s.drop_first().len() - r.len()) =~= s.skip(s.len() - r.len()));
    } else {
        assert(s.skip(0) =~= s);
    }
}

/// Trimming the back leaves a prefix of the text that does not end in a
/// trimmed character.
pub proof fn lemma_trim_end_is_prefix(s: Seq<char>, t: Trim)
    ensures
        trim_end_by(s, t).len() <= s.len(),
        trim_end_by(s, t) == s.take(trim_end_by(s, t).len() as int),
        trim_end_by(s, t).len() > 0 ==> !trimmed_by(t, trim_end_by(s, t).last()),
    decreases s.len(),
{
    if s.len() > 0 && trimmed_by(t, s.last()) {
        lemma_trim_end_is_prefix(s.drop_last(), t);
        let r = trim_end_by(s.drop_last(), t);
        assert(s.drop_last().take(r.len() as int) =~= s.take(r.len() as int));
    } else {
        assert(s.take(s.len() as int) =~= s);
    }
}

/// A trimmed text has no character that the text has not, and does not end
/// in whitespace.
pub proof fn lemma_trim_keeps_out(s: Seq<char>, c: char)
    requires
        !s.contains(c),
    ensures
        !trim(s).contains(c),
        trim(s).len() > 0 ==> !is_whitespace(trim(s).last()),
{
    lemma_trim_start_is_suffix(s, Trim::Whitespace);
    let a = trim_start_by(s, Trim::Whitespace);
    lemma_trim_end_is_prefix(a, Trim::Whitespace);
    let b = trim(s);
    assert forall|i: int| 0 <= i < b.len() implies b[i] != c by {
        assert(b[i] == a[i]);
        assert(a[i] == s[s.len() - a.len() + i]);
    }
}

/// No line that `lines` yields holds a `'\n'`.
pub proof fn lemma_lines_have_no_newline(s: Seq<char>)
    ensures
        forall|k: int| 0 <= k < lines(s).len() ==> !(#[trigger] lines(s)[k]).contains('\n'),
    decreases s.len(),
{
    let i = index_of(s, '\n');
    lemma_index_of(s, '\n');
    if s.len() == 0 {
    } else if i < 0 || i >= s.len() {
        assert(lines(s) =~= seq![s]);
    } else {
        lemma_lines_have_no_newline(s.skip(i + 1));
        let first = strip_cr(s.take(i));
        assert forall|j: int| 0 <= j < first.len() implies first[j] != '\n' by {
            assert(first[j] == s[j]);
        }
        let ls = lines(s);
        assert(ls == seq![first] + lines(s.skip(i + 1)));
        assert forall|k: int| 0 <= k < ls.len() implies !(#[trigger] ls[k]).contains('\n') by {
            if k > 0 {
                assert(ls[k] == lines(s.skip(i + 1))[k - 1]);
            }
        }
    }
}

/// Trimming the front passes over a run of trimmed characters.
pub proof fn lemma_trim_start_skips(w: Seq<char>, x: Seq<char>, t: Trim)
    requires
        forall|i: int| 0 <= i < w.len() ==> trimmed_by(t, #[trigger] w[i]),
    ensures
        trim_start_by(w + x, t) == trim_start_by(x, t),
    decreases w.len(),
{
    if w.len() > 0 {
        let s = w + x;
        assert(s[0] == w[0]);
        assert(s.drop_first() =~= w.drop_first() + x);
        let w2 = w.drop_first();
        assert forall|i: int| 0 <= i < w2.len() implies trimmed_by(t, #[trigger] w2[i]) by {
            assert(w2[i] == w[i + 1]);
        }
        lemma_trim_start_skips(w2, x, t);
    } else {
        assert(w + x =~= x);
    }
}

/// Trimming the front stops at a character that is not trimmed.
pub proof fn lemma_trim_start_stops(x: Seq<char>, t: Trim)
    requires
        x.len() == 0 || !trimmed_by(t, x[0]),
    ensures
        trim_start_by(x, t) == x,
{
}

/// Trimming the back passes over a run of trimmed characters.
pub proof fn lemma_trim_end_skips(x: Seq<char>, w: Seq<char>, t: Trim)
    requires
        forall|i: int| 0 <= i < w.len() ==> trimmed_by(t, #[trigger] w[i]),
    ensures
        trim_end_by(x + w, t) == trim_end_by(x, t),
    decreases w.len(),
{
    if w.len() > 0 {
        let s = x + w;
        assert(s.last() == w.last());
        assert(s.drop_last() =~= x + w.drop_last());
        let w2 = w.drop_last();
        assert forall|i: int| 0 <= i < w2.len() implies trimmed_by(t, #[trigger] w2[i]) by {
            assert(w2[i] == w[i]);
        }
        assert(trimmed_by(t, w[w.len() - 1]));
        lemma_trim_end_skips(x, w2, t);
    } else {
        assert(x + w =~= x);
    }
}

/// Trimming the back stops at a character that is not trimmed.
pub proof fn lemma_trim_end_stops(x: Seq<char>, t: Trim)
    requires
        x.len() == 0 || !trimmed_by(t, x.last()),
    ensures
        trim_end_by(x, t) == x,
{
}

/// The first whitespace of `a + b`, when `a` has none and `b` starts with one,
/// is where `b` starts.
pub proof fn lemma_index_of_whitespace_join(a: Seq<char>, b: Seq<char>)
    requires
        forall|i: int| 0 <= i < a.len() ==> !is_whitespace(#[trigger] a[i]),
        b.len() > 0,
        is_whitespace(b[0]),
    ensures
        index_of_whitespace(a + b) == a.len(),
{
    let s = a + b;
    lemma_index_of_whitespace(s);
    let k = index_of_whitespace(s);
    assert(s[a.len() as int] == b[0]);
    if k >= 0 && k < a.len() {
        assert(s[k] == a[k]);
    }
}

/// Whether two string slices are the same text.
pub fn str_eq(a: &str, b: &str) -> (r: bool)
    ensures
        r == (a@ == b@),
{
    let va = chars_of(a);
    let vb = chars_of(b);
    let r = range_eq(&va, 0, va.len(), &vb, 0, vb.len());
    assert(va@.subrange(0, va@.len() as int) =~= va@);
    assert(vb@.subrange(0, vb@.len() as int) =~= vb@);
    r
}

} // verus!
