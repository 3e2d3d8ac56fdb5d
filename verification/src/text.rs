//! Character-level text handling: whitespace, lines, fields, searching.

use vstd::prelude::*;

verus! {

/// The characters that `char::is_whitespace` accepts: Unicode `White_Space`.
pub open spec fn is_space(c: char) -> bool {
    ||| ('\t' <= c && c <= '\r')
    ||| c == ' '
    ||| c == '\u{85}'
    ||| c == '\u{a0}'
    ||| c == '\u{1680}'
    ||| ('\u{2000}' <= c && c <= '\u{200a}')
    ||| c == '\u{2028}'
    ||| c == '\u{2029}'
    ||| c == '\u{202f}'
    ||| c == '\u{205f}'
    ||| c == '\u{3000}'
}

pub fn is_space_char(c: char) -> (b: bool)
    ensures
        b == is_space(c),
{
    ('\t' <= c && c <= '\r') || c == ' ' || c == '\u{85}' || c == '\u{a0}' || c == '\u{1680}'
        || ('\u{2000}' <= c && c <= '\u{200a}') || c == '\u{2028}' || c == '\u{2029}'
        || c == '\u{202f}' || c == '\u{205f}' || c == '\u{3000}'
}

/// The characters of `s`, in order.
pub fn chars_of(s: &str) -> (v: Vec<char>)
    ensures
        v@ == s@,
{
    let mut v: Vec<char> = Vec::new();
    for c in it: s.chars()
        invariant
            v@ == it.seq().take(it.index() as int),
            it.seq() == s@,
    {
        v.push(c);
    }
    v
}

} // verus!

verus! {

/// `s` without one trailing carriage return.
pub open spec fn strip_cr(s: Seq<char>) -> Seq<char> {
    if s.len() > 0 && s.last() == '\r' {
        s.drop_last()
    } else {
        s
    }
}

/// The lines of `s` that come after a partial line `cur`, as `str::lines` cuts them:
/// a line ends at `\n`, which is dropped together with a `\r` just before it, and a
/// last line without `\n` counts when it is not empty.
pub open spec fn lines_after(s: Seq<char>, cur: Seq<char>) -> Seq<Seq<char>>
    decreases s.len(),
{
    if s.len() == 0 {
        if cur.len() > 0 {
            seq![cur]
        } else {
            seq![]
        }
    } else if s[0] == '\n' {
        seq![strip_cr(cur)] + lines_after(s.drop_first(), seq![])
    } else {
        lines_after(s.drop_first(), cur.push(s[0]))
    }
}

/// The lines of `s`, as `str::lines` (and `BufRead::lines`) gives them.
pub open spec fn text_lines(s: Seq<char>) -> Seq<Seq<char>> {
    lines_after(s, seq![])
}

/// The whitespace-separated fields of `s` that come after a partial field `cur`.
pub open spec fn fields_after(s: Seq<char>, cur: Seq<char>) -> Seq<Seq<char>>
    decreases s.len(),
{
    if s.len() == 0 {
        if cur.len() > 0 {
            seq![cur]
        } else {
            seq![]
        }
    } else if is_space(s[0]) {
        (if cur.len() > 0 {
            seq![cur]
        } else {
            seq![]
        }) + fields_after(s.drop_first(), seq![])
    } else {
        fields_after(s.drop_first(), cur.push(s[0]))
    }
}

/// The maximal runs of non-whitespace characters of `s`, as `str::split_whitespace`
/// gives them.
pub open spec fn fields(s: Seq<char>) -> Seq<Seq<char>> {
    fields_after(s, seq![])
}

/// The pieces of `s` between occurrences of `sep`, after a partial piece `cur`.
pub open spec fn pieces_after(s: Seq<char>, sep: char, cur: Seq<char>) -> Seq<Seq<char>>
    decreases s.len(),
{
    if s.len() == 0 {
        seq![cur]
    } else if s[0] == sep {
        seq![cur] + pieces_after(s.drop_first(), sep, seq![])
    } else {
        pieces_after(s.drop_first(), sep, cur.push(s[0]))
    }
}

/// The pieces of `s` cut at every `sep`, empty pieces included, as `str::split`
/// with a character gives them.
pub open spec fn pieces(s: Seq<char>, sep: char) -> Seq<Seq<char>> {
    pieces_after(s, sep, seq![])
}

/// The character sequences held by a vector of character vectors.
pub open spec fn char_rows(v: Seq<Vec<char>>) -> Seq<Seq<char>> {
    v.map_values(|x: Vec<char>| x@)
}

/// The lines of `chars`.
pub fn lines_of(chars: &Vec<char>) -> (out: Vec<Vec<char>>)
    ensures
        char_rows(out@) == text_lines(chars@),
{
    let n = chars.len();
    let mut out: Vec<Vec<char>> = Vec::new();
    let mut cur: Vec<char> = Vec::new();
    let mut i: usize = 0;
    assert(chars@.skip(0) =~= chars@);
    assert(char_rows(out@) =~= Seq::<Seq<char>>::empty());
    while i < n
        invariant
            i <= n,
            n == chars@.len(),
            text_lines(chars@) == char_rows(out@) + lines_after(chars@.skip(i as int), cur@),
        decreases n - i,
    {
        let c = chars[i];
        let ghost rest = chars@.skip(i as int);
        assert(rest.drop_first() =~= chars@.skip(i + 1));
        let ghost before = char_rows(out@);
        if c == '\n' {
            let ghost line = strip_cr(cur@);
            let len = cur.len();
            if len > 0 && cur[len - 1] == '\r' {
                cur.pop();
            }
            assert(cur@ =~= line);
            out.push(cur);
            cur = Vec::new();
            assert(char_rows(out@) =~= before + seq![line]);
            assert(before + seq![line] + lines_after(chars@.skip(i + 1), seq![]) =~= before + (
            seq![line] + lines_after(chars@.skip(i + 1), seq![])));
        } else {
            cur.push(c);
        }
        i = i + 1;
    }
    let ghost before = char_rows(out@);
    if cur.len() > 0 {
        out.push(cur);
        assert(char_rows(out@) =~= before + seq![cur@]);
    }
    assert(char_rows(out@) =~= text_lines(chars@));
    out
}

/// The whitespace-separated fields of `chars`.
pub fn fields_of(chars: &Vec<char>) -> (out: Vec<Vec<char>>)
    ensures
        char_rows(out@) == fields(chars@),
{
    let n = chars.len();
    let mut out: Vec<Vec<char>> = Vec::new();
    let mut cur: Vec<char> = Vec::new();
    let mut i: usize = 0;
    assert(chars@.skip(0) =~= chars@);
    assert(char_rows(out@) =~= Seq::<Seq<char>>::empty());
    while i < n
        invariant
            i <= n,
            n == chars@.len(),
            fields(chars@) == char_rows(out@) + fields_after(chars@.skip(i as int), cur@),
        decreases n - i,
    {
        let c = chars[i];
        let ghost rest = chars@.skip(i as int);
        assert(rest.drop_first() =~= chars@.skip(i + 1));
        let ghost before = char_rows(out@);
        if is_space_char(c) {
            if cur.len() > 0 {
                let ghost field = cur@;
                out.push(cur);
                cur = Vec::new();
                assert(char_rows(out@) =~= before + seq![field]);
                assert(before + (seq![field] + fields_after(chars@.skip(i + 1), seq![]))
                    =~= before + seq![field] + fields_after(chars@.skip(i + 1), seq![]));
            } else {
                assert(cur@ =~= Seq::<char>::empty());
                assert(seq![] + fields_after(chars@.skip(i + 1), seq![]) =~= fields_after(
                    chars@.skip(i + 1),
                    seq![],
                ));
            }
        } else {
            cur.push(c);
        }
        i = i + 1;
    }
    let ghost before = char_rows(out@);
    if cur.len() > 0 {
        out.push(cur);
        assert(char_rows(out@) =~= before + seq![cur@]);
    }
    assert(char_rows(out@) =~= fields(chars@));
    out
}

/// The pieces of `chars` cut at every `sep`.
pub fn pieces_of(chars: &Vec<char>, sep: char) -> (out: Vec<Vec<char>>)
    ensures
        char_rows(out@) == pieces(chars@, sep),
{
    let n = chars.len();
    let mut out: Vec<Vec<char>> = Vec::new();
    let mut cur: Vec<char> = Vec::new();
    let mut i: usize = 0;
    assert(chars@.skip(0) =~= chars@);
    assert(char_rows(out@) =~= Seq::<Seq<char>>::empty());
    while i < n
        invariant
            i <= n,
            n == chars@.len(),
            pieces(chars@, sep) == char_rows(out@) + pieces_after(chars@.skip(i as int), sep, cur@),
        decreases n - i,
    {
        let c = chars[i];
        let ghost rest = chars@.skip(i as int);
        assert(rest.drop_first() =~= chars@.skip(i + 1));
        let ghost before = char_rows(out@);
        if c == sep {
            let ghost piece = cur@;
            out.push(cur);
            cur = Vec::new();
            assert(char_rows(out@) =~= before + seq![piece]);
            assert(before + (seq![piece] + pieces_after(chars@.skip(i + 1), sep, seq![]))
                =~= before + seq![piece] + pieces_after(chars@.skip(i + 1), sep, seq![]));
        } else {
            cur.push(c);
        }
        i = i + 1;
    }
    let ghost before = char_rows(out@);
    out.push(cur);
    assert(char_rows(out@) =~= before + seq![cur@]);
    assert(char_rows(out@) =~= pieces(chars@, sep));
    out
}

} // verus!

verus! {

/// `p` occurs in `s` at position `i`.
pub open spec fn matches_at(s: Seq<char>, p: Seq<char>, i: int) -> bool {
    0 <= i && i + p.len() <= s.len() && s.subrange(i, i + p.len()) == p
}

/// `p` occurs somewhere in `s`, as `str::contains` tells it.
pub open spec fn contains(s: Seq<char>, p: Seq<char>) -> bool {
    exists|i: int| matches_at(s, p, i)
}

/// The first position at or after `k` where `p` occurs in `s`.
pub open spec fn find_from(s: Seq<char>, p: Seq<char>, k: int) -> Option<int>
    decreases s.len() - k,
{
    if k < 0 || k + p.len() > s.len() {
        None
    } else if s.subrange(k, k + p.len()) == p {
        Some(k)
    } else if p.len() == 0 {
        None
    } else {
        find_from(s, p, k + 1)
    }
}

/// The first position where `p` occurs in `s`.
pub open spec fn first_match(s: Seq<char>, p: Seq<char>) -> Option<int> {
    find_from(s, p, 0)
}

/// Whether `p` occurs in `s` at position `k`.
pub fn matches_at_exec(s: &Vec<char>, p: &Vec<char>, k: usize) -> (b: bool)
    ensures
        b == matches_at(s@, p@, k as int),
{
    let n = s.len();
    let m = p.len();
    if k > n || m > n - k {
        return false;
    }
    let mut j: usize = 0;
    while j < m
        invariant
            j <= m,
            m == p@.len(),
            n == s@.len(),
            k + m <= n,
            forall|t: int| 0 <= t < j ==> s@[k + t] == p@[t],
        decreases m - j,
    {
        if s[k + j] != p[j] {
            assert(s@.subrange(k as int, k + m)[j as int] != p@[j as int]);
            return false;
        }
        j = j + 1;
    }
    assert(s@.subrange(k as int, k + m) =~= p@);
    true
}

/// The first position where `p` occurs in `s`.
pub fn find(s: &Vec<char>, p: &Vec<char>) -> (r: Option<usize>)
    ensures
        r matches Some(k) ==> first_match(s@, p@) == Some(k as int) && matches_at(s@, p@, k as int),
        r is None ==> first_match(s@, p@) is None,
        r is Some <==> contains(s@, p@),
{
    let n = s.len();
    let m = p.len();
    if m > n {
        assert(!contains(s@, p@));
        return None;
    }
    let mut k: usize = 0;
    while k <= n - m
        invariant
            m <= n,
            n == s@.len(),
            m == p@.len(),
            k <= n - m + 1,
            forall|j: int| 0 <= j < k ==> !matches_at(s@, p@, j),
            first_match(s@, p@) == find_from(s@, p@, k as int),
        decreases n - m + 1 - k,
    {
        if matches_at_exec(s, p, k) {
            return Some(k);
        }
        assert(m > 0) by {
            if m == 0 {
                assert(s@.subrange(k as int, k as int) =~= p@);
            }
        }
        k = k + 1;
    }
    assert forall|i: int| !matches_at(s@, p@, i) by {
        if matches_at(s@, p@, i) {
            assert(i < k);
        }
    }
    None
}

/// Whether `p` occurs in `s`.
pub fn contains_exec(s: &Vec<char>, p: &Vec<char>) -> (b: bool)
    ensures
        b == contains(s@, p@),
{
    find(s, p).is_some()
}

/// `s` without its leading whitespace.
pub open spec fn trim_start(s: Seq<char>) -> Seq<char>
    decreases s.len(),
{
    if s.len() > 0 && is_space(s[0]) {
        trim_start(s.drop_first())
    } else {
        s
    }
}

/// `s` without its trailing whitespace.
pub open spec fn trim_end(s: Seq<char>) -> Seq<char>
    decreases s.len(),
{
    if s.len() > 0 && is_space(s.last()) {
        trim_end(s.drop_last())
    } else {
        s
    }
}

/// `s` without leading and trailing whitespace, as `str::trim` gives it.
pub open spec fn trim(s: Seq<char>) -> Seq<char> {
    trim_end(trim_start(s))
}

/// The characters of `s` from `lo` up to `hi`.
pub fn slice_chars(s: &Vec<char>, lo: usize, hi: usize) -> (out: Vec<char>)
    requires
        lo <= hi <= s@.len(),
    ensures
        out@ == s@.subrange(lo as int, hi as int),
{
    let mut out: Vec<char> = Vec::new();
    let mut i = lo;
    while i < hi
        invariant
            lo <= i <= hi,
            hi <= s@.len(),
            out@ == s@.subrange(lo as int, i as int),
        decreases hi - i,
    {
        out.push(s[i]);
        i = i + 1;
        assert(out@ =~= s@.subrange(lo as int, i as int));
    }
    out
}

/// `s` without leading and trailing whitespace.
pub fn trim_chars(s: &Vec<char>) -> (out: Vec<char>)
    ensures
        out@ == trim(s@),
{
    let n = s.len();
    let mut lo: usize = 0;
    assert(s@.skip(0) =~= s@);
    while lo < n && is_space_char(s[lo])
        invariant
            lo <= n,
            n == s@.len(),
            trim_start(s@) == trim_start(s@.skip(lo as int)),
        decreases n - lo,
    {
        assert(s@.skip(lo as int).drop_first() =~= s@.skip(lo + 1));
        lo = lo + 1;
    }
    let ghost rest = s@.skip(lo as int);
    assert(trim_start(s@) == rest);
    let mut hi: usize = n;
    assert(rest.take(rest.len() as int) =~= rest);
    while hi > lo && is_space_char(s[hi - 1])
        invariant
            lo <= hi <= n,
            n == s@.len(),
            rest == s@.skip(lo as int),
            trim_end(rest) == trim_end(rest.take(hi - lo)),
        decreases hi,
    {
        assert(rest.take(hi - lo).drop_last() =~= rest.take(hi - 1 - lo));
        hi = hi - 1;
    }
    let out = slice_chars(s, lo, hi);
    assert(out@ =~= rest.take(hi - lo));
    out
}

/// The code of `c` with ASCII capitals turned into small letters.
pub open spec fn ascii_lower_code(c: char) -> u32 {
    if 'A' <= c && c <= 'Z' {
        (c as u32 + 32) as u32
    } else {
        c as u32
    }
}

/// `a` and `b` are equal up to ASCII case, as `str::eq_ignore_ascii_case` tells it.
pub open spec fn eq_ignore_ascii_case(a: Seq<char>, b: Seq<char>) -> bool {
    a.len() == b.len() && forall|i: int|
        0 <= i < a.len() ==> ascii_lower_code(#[trigger] a[i]) == ascii_lower_code(b[i])
}

fn ascii_lower_code_exec(c: char) -> (r: u32)
    ensures
        r == ascii_lower_code(c),
{
    if 'A' <= c && c <= 'Z' {
        c as u32 + 32
    } else {
        c as u32
    }
}

/// Whether `a` and `b` are equal up to ASCII case.
pub fn eq_ignore_ascii_case_exec(a: &Vec<char>, b: &Vec<char>) -> (r: bool)
    ensures
        r == eq_ignore_ascii_case(a@, b@),
{
    if a.len() != b.len() {
        return false;
    }
    let n = a.len();
    let mut i: usize = 0;
    while i < n
        invariant
            i <= n,
            n == a@.len(),
            n == b@.len(),
            forall|j: int| 0 <= j < i ==> ascii_lower_code(#[trigger] a@[j]) == ascii_lower_code(
                b@[j],
            ),
        decreases n - i,
    {
        if ascii_lower_code_exec(a[i]) != ascii_lower_code_exec(b[i]) {
            return false;
        }
        i = i + 1;
    }
    true
}

} // verus!

verus! {

/// Cutting never gives fewer than one piece.
pub proof fn lemma_pieces_nonempty(s: Seq<char>, sep: char)
    ensures
        pieces(s, sep).len() > 0,
{
    lemma_pieces_after_nonempty(s, sep, seq![]);
}

proof fn lemma_pieces_after_nonempty(s: Seq<char>, sep: char, cur: Seq<char>)
    ensures
        pieces_after(s, sep, cur).len() > 0,
    decreases s.len(),
{
    if s.len() > 0 {
        if s[0] == sep {
            lemma_pieces_after_nonempty(s.drop_first(), sep, seq![]);
        } else {
            lemma_pieces_after_nonempty(s.drop_first(), sep, cur.push(s[0]));
        }
    }
}

} // verus!

verus! {

proof fn lemma_pieces_after_two(a: Seq<char>, b: Seq<char>, sep: char, cur: Seq<char>)
    requires
        !a.contains(sep),
        !b.contains(sep),
    ensures
        pieces_after(a + seq![sep] + b, sep, cur) == seq![cur + a, b],
    decreases a.len(),
{
    let s = a + seq![sep] + b;
    if a.len() == 0 {
        assert(s[0] == sep);
        assert(s.drop_first() =~= b);
        lemma_pieces_after_plain(b, sep, seq![]);
        assert(cur + a =~= cur);
        assert(seq![] + b =~= b);
        assert(seq![cur] + seq![b] =~= seq![cur + a, b]);
    } else {
        assert(s[0] == a[0]);
        assert(a[0] != sep);
        assert(!a.drop_first().contains(sep)) by {
            if a.drop_first().contains(sep) {
                let i = choose|i: int| 0 <= i < a.drop_first().len() && a.drop_first()[i] == sep;
                assert(a[i + 1] == sep);
            }
        }
        assert(s.drop_first() =~= a.drop_first() + seq![sep] + b);
        lemma_pieces_after_two(a.drop_first(), b, sep, cur.push(a[0]));
        assert(cur.push(a[0]) + a.drop_first() =~= cur + a);
    }
}

proof fn lemma_pieces_after_plain(b: Seq<char>, sep: char, cur: Seq<char>)
    requires
        !b.contains(sep),
    ensures
        pieces_after(b, sep, cur) == seq![cur + b],
    decreases b.len(),
{
    if b.len() == 0 {
        assert(cur + b =~= cur);
    } else {
        assert(b[0] != sep);
        assert(!b.drop_first().contains(sep)) by {
            if b.drop_first().contains(sep) {
                let i = choose|i: int| 0 <= i < b.drop_first().len() && b.drop_first()[i] == sep;
                assert(b[i + 1] == sep);
            }
        }
        lemma_pieces_after_plain(b.drop_first(), sep, cur.push(b[0]));
        assert(cur.push(b[0]) + b.drop_first() =~= cur + b);
    }
}

/// Two texts without `sep`, joined by one `sep`, are cut back into those two.
pub proof fn lemma_pieces_of_pair(a: Seq<char>, b: Seq<char>, sep: char)
    requires
        !a.contains(sep),
        !b.contains(sep),
    ensures
        pieces(a + seq![sep] + b, sep) == seq![a, b],
{
    lemma_pieces_after_two(a, b, sep, seq![]);
    assert(seq![] + a =~= a);
}

} // verus!
