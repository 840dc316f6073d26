//! Text primitives shared by the protocol parsers: character sequences of
//! strings, Unicode white space, trimming and splitting.

use vstd::prelude::*;
use vstd::std_specs::iter::IteratorSpec;
use vstd::utf8::*;

verus! {

broadcast use vstd::string::group_string_axioms;

/// Appends one character to a string (`String::push`).
#[verifier::external_body]
pub(crate) fn push_char(s: &mut String, c: char)
    ensures
        final(s)@ == old(s)@.push(c),
{
    s.push(c)
}

/// What `String::from_utf8_lossy` makes of the bytes `bytes`: their UTF-8
/// decoding, each invalid sequence replaced by U+FFFD.
pub uninterp spec fn utf8_lossy(bytes: Seq<u8>) -> Seq<char>;

/// The text that `String::from_utf8_lossy` makes of `bytes`: their decoding
/// when they are UTF-8, and [`utf8_lossy`] otherwise.
pub open spec fn lossy_text(bytes: Seq<u8>) -> Seq<char> {
    if valid_utf8(bytes) {
        decode_utf8(bytes)
    } else {
        utf8_lossy(bytes)
    }
}

/// `String::from_utf8_lossy`, made an owned string. Claimed: the result is
/// [`lossy_text`] of the bytes, that is, their plain decoding when they are
/// valid UTF-8 (the documentation: a valid slice is returned as it is), and the
/// named function [`utf8_lossy`] of them otherwise.
#[verifier::external_body]
pub(crate) fn from_utf8_lossy(bytes: &[u8]) -> (s: String)
    ensures
        valid_utf8(bytes@) ==> s@ == decode_utf8(bytes@),
        !valid_utf8(bytes@) ==> s@ == utf8_lossy(bytes@),
{
    String::from_utf8_lossy(bytes).into_owned()
}

/// The characters of `s`, in order.
pub fn chars_of(s: &str) -> (v: Vec<char>)
    ensures
        v@ == s@,
{
    let mut v: Vec<char> = Vec::new();
    for c in it: s.chars()
        invariant
            v@ == it.seq().take(it.index() as int),
            it.seq() == s@,
    {
        v.push(c);
    }
    v
}

/// The string made of the characters `v[lo..hi]`.
pub fn string_of(v: &Vec<char>, lo: usize, hi: usize) -> (s: String)
    requires
        lo <= hi <= v@.len(),
    ensures
        s@ == v@.subrange(lo as int, hi as int),
{
    let mut s = String::new();
    let mut i = lo;
    while i < hi
        invariant
            lo <= i <= hi <= v@.len(),
            s@ == v@.subrange(lo as int, i as int),
        decreases hi - i,
    {
        push_char(&mut s, v[i]);
        i += 1;
    }
    s
}


/// Unicode `White_Space`, the property that `char::is_whitespace` tests:
/// U+0009..U+000D, U+0020, U+0085, U+00A0, U+1680, U+2000..U+200A, U+2028,
/// U+2029, U+202F, U+205F and U+3000.
pub open spec fn is_ws(c: char) -> bool {
    let u = c as u32;
    ||| 0x09 <= u <= 0x0d
    ||| u == 0x20
    ||| u == 0x85
    ||| u == 0xa0
    ||| u == 0x1680
    ||| 0x2000 <= u <= 0x200a
    ||| u == 0x2028
    ||| u == 0x2029
    ||| u == 0x202f
    ||| u == 0x205f
    ||| u == 0x3000
}

/// Whether `c` is white space in the sense of `char::is_whitespace`.
pub fn is_whitespace(c: char) -> (b: bool)
    ensures
        b == is_ws(c),
{
    let u = c as u32;
    (0x09 <= u && u <= 0x0d) || u == 0x20 || u == 0x85 || u == 0xa0 || u == 0x1680 || (0x2000
        <= u && u <= 0x200a) || u == 0x2028 || u == 0x2029 || u == 0x202f || u == 0x205f || u
        == 0x3000
}

/// `s` without its leading white space.
pub open spec fn trim_start(s: Seq<char>) -> Seq<char>
    decreases s.len(),
{
    if s.len() > 0 && is_ws(s[0]) {
        trim_start(s.drop_first())
    } else {
        s
    }
}

/// `s` without its trailing white space.
pub open spec fn trim_end(s: Seq<char>) -> Seq<char>
    decreases s.len(),
{
    if s.len() > 0 && is_ws(s.last()) {
        trim_end(s.drop_last())
    } else {
        s
    }
}

/// `s` without leading and trailing white space (`str::trim`).
pub open spec fn trim(s: Seq<char>) -> Seq<char> {
    trim_end(trim_start(s))
}

/// The pieces of `s` between occurrences of `sep` (`str::split` with a
/// character): there is always one piece more than there are separators.
pub open spec fn split_on(s: Seq<char>, sep: char) -> Seq<Seq<char>>
    decreases s.len(),
{
    if s.len() == 0 {
        seq![Seq::empty()]
    } else {
        let r = split_on(s.drop_last(), sep);
        if s.last() == sep {
            r.push(Seq::empty())
        } else {
            r.update(r.len() - 1, r.last().push(s.last()))
        }
    }
}

/// The maximal runs of non-white-space characters of `s`, in order
/// (`str::split_whitespace`).
pub open spec fn words(s: Seq<char>) -> Seq<Seq<char>>
    decreases s.len(),
{
    if s.len() == 0 {
        seq![]
    } else {
        let r = words(s.drop_last());
        let c = s.last();
        if is_ws(c) {
            r
        } else if s.len() >= 2 && !is_ws(s[s.len() - 2]) {
            r.update(r.len() - 1, r.last().push(c))
        } else {
            r.push(seq![c])
        }
    }
}

/// Four spaces start at index `i` of `s`.
pub open spec fn sep_at(s: Seq<char>, i: int) -> bool {
    &&& 0 <= i
    &&& i + 4 <= s.len()
    &&& s[i] == ' '
    &&& s[i + 1] == ' '
    &&& s[i + 2] == ' '
    &&& s[i + 3] == ' '
}

/// The first index at or after `from` where four spaces start.
pub open spec fn find_sep_from(s: Seq<char>, from: int) -> Option<int>
    decreases s.len() - from,
{
    if from < 0 || from + 4 > s.len() {
        None
    } else if sep_at(s, from) {
        Some(from)
    } else {
        find_sep_from(s, from + 1)
    }
}

/// `s.splitn(2, "    ")` when it yields two pieces: the text before the
/// first four spaces and the text after them.
pub open spec fn split_at_sep(s: Seq<char>) -> Option<(Seq<char>, Seq<char>)> {
    match find_sep_from(s, 0) {
        Some(i) => Some((s.take(i), s.skip(i + 4))),
        None => None,
    }
}

/// Splitting gives at least one piece.
pub proof fn lemma_split_on_nonempty(s: Seq<char>, sep: char)
    ensures
        split_on(s, sep).len() >= 1,
    decreases s.len(),
{
    if s.len() > 0 {
        lemma_split_on_nonempty(s.drop_last(), sep);
    }
}

/// The index that [`find_sep_from`] finds starts four spaces, and none
/// starts before it.
pub proof fn lemma_find_sep_from(s: Seq<char>, from: int)
    requires
        0 <= from,
    ensures
        find_sep_from(s, from) matches Some(k) ==> from <= k && sep_at(s, k) && forall|j: int|
            from <= j < k ==> !sep_at(s, j),
        find_sep_from(s, from) is None ==> forall|j: int| from <= j ==> !sep_at(s, j),
    decreases s.len() - from,
{
    if from + 4 <= s.len() && !sep_at(s, from) {
        lemma_find_sep_from(s, from + 1);
        assert forall|j: int| from <= j && !(from + 1 <= j) implies !sep_at(s, j) by {
            assert(j == from);
        }
    }
}

/// Bounds `(lo, hi)` such that `v[lo..hi]` is `v[start..end]` trimmed.
pub fn trim_bounds(v: &Vec<char>, start: usize, end: usize) -> (r: (usize, usize))
    requires
        start <= end <= v@.len(),
    ensures
        start <= r.0 <= r.1 <= end,
        v@.subrange(r.0 as int, r.1 as int) == trim(v@.subrange(start as int, end as int)),
{
    let mut lo = start;
    while lo < end && is_whitespace(v[lo])
        invariant
            start <= lo <= end <= v@.len(),
            trim_start(v@.subrange(start as int, end as int)) == trim_start(
                v@.subrange(lo as int, end as int),
            ),
        decreases end - lo,
    {
        assert(v@.subrange(lo as int, end as int).drop_first() == v@.subrange(
            lo + 1,
            end as int,
        ));
        lo += 1;
    }
    assert(trim_start(v@.subrange(lo as int, end as int)) == v@.subrange(lo as int, end as int));
    let mut hi = end;
    while hi > lo && is_whitespace(v[hi - 1])
        invariant
            start <= lo <= hi <= end <= v@.len(),
            trim(v@.subrange(start as int, end as int)) == trim_end(
                v@.subrange(lo as int, hi as int),
            ),
        decreases hi - lo,
    {
        assert(v@.subrange(lo as int, hi as int).drop_last() == v@.subrange(
            lo as int,
            hi - 1,
        ));
        hi -= 1;
    }
    (lo, hi)
}


/// The pieces of `v` that the index pairs of `sp` delimit.
pub open spec fn spans_view(v: Seq<char>, sp: Seq<(usize, usize)>) -> Seq<Seq<char>> {
    sp.map_values(|p: (usize, usize)| v.subrange(p.0 as int, p.1 as int))
}

/// Every pair of `sp` is an ordered pair of indices within `lo..hi`.
pub open spec fn spans_within(sp: Seq<(usize, usize)>, lo: int, hi: int) -> bool {
    forall|k: int| 0 <= k < sp.len() ==> lo <= #[trigger] sp[k].0 <= sp[k].1 <= hi
}

/// The pieces of `v[lo..hi]` between occurrences of `sep`, as index pairs.
pub fn split_spans(v: &Vec<char>, lo: usize, hi: usize, sep: char) -> (sp: Vec<(usize, usize)>)
    requires
        lo <= hi <= v@.len(),
    ensures
        spans_within(sp@, lo as int, hi as int),
        spans_view(v@, sp@) == split_on(v@.subrange(lo as int, hi as int), sep),
{
    let mut sp: Vec<(usize, usize)> = Vec::new();
    let mut cur = lo;
    let mut i = lo;
    assert(v@.subrange(lo as int, lo as int) =~= Seq::<char>::empty());
    assert(spans_view(v@, sp@).push(v@.subrange(cur as int, i as int)) =~= split_on(
        v@.subrange(lo as int, i as int),
        sep,
    ));
    while i < hi
        invariant
            lo <= cur <= i <= hi <= v@.len(),
            spans_within(sp@, lo as int, i as int),
            spans_view(v@, sp@).push(v@.subrange(cur as int, i as int)) == split_on(
                v@.subrange(lo as int, i as int),
                sep,
            ),
        decreases hi - i,
    {
        let ghost before = spans_view(v@, sp@);
        assert(v@.subrange(lo as int, i + 1).drop_last() =~= v@.subrange(lo as int, i as int));
        if v[i] == sep {
            let ghost sp0 = sp@;
            sp.push((cur, i));
            assert forall|k: int| 0 <= k < sp@.len() implies lo <= #[trigger] sp@[k].0 <= sp@[k].1 <= i + 1 by {
                if k < sp0.len() {
                    assert(sp@[k] == sp0[k]);
                }
            }
            assert(spans_view(v@, sp@) =~= before.push(v@.subrange(cur as int, i as int)));
            cur = i + 1;
            assert(v@.subrange(cur as int, i + 1) =~= Seq::<char>::empty());
        } else {
            assert(v@.subrange(cur as int, i + 1) =~= v@.subrange(cur as int, i as int).push(
                v@[i as int],
            ));
        }
        i += 1;
        assert(spans_view(v@, sp@).push(v@.subrange(cur as int, i as int)) =~= split_on(
            v@.subrange(lo as int, i as int),
            sep,
        ));
    }
    let ghost before = spans_view(v@, sp@);
    sp.push((cur, hi));
    assert(spans_view(v@, sp@) =~= before.push(v@.subrange(cur as int, hi as int)));
    sp
}

/// The words of `v[lo..hi]` (see [`words`]), as index pairs.
pub fn word_spans(v: &Vec<char>, lo: usize, hi: usize) -> (sp: Vec<(usize, usize)>)
    requires
        lo <= hi <= v@.len(),
    ensures
        spans_within(sp@, lo as int, hi as int),
        spans_view(v@, sp@) == words(v@.subrange(lo as int, hi as int)),
{
    let mut sp: Vec<(usize, usize)> = Vec::new();
    let mut in_word = false;
    let mut start = lo;
    let mut i = lo;
    assert(v@.subrange(lo as int, lo as int) =~= Seq::<char>::empty());
    assert(spans_view(v@, sp@) =~= Seq::<Seq<char>>::empty());
    while i < hi
        invariant
            lo <= start <= i <= hi <= v@.len(),
            spans_within(sp@, lo as int, start as int),
            in_word == (i > lo && !is_ws(v@[i - 1])),
            in_word ==> start < i,
            words(v@.subrange(lo as int, i as int)) == (if in_word {
                spans_view(v@, sp@).push(v@.subrange(start as int, i as int))
            } else {
                spans_view(v@, sp@)
            }),
        decreases hi - i,
    {
        let ghost before = spans_view(v@, sp@);
        let ghost s = v@.subrange(lo as int, i + 1);
        assert(s.drop_last() =~= v@.subrange(lo as int, i as int));
        assert(s.last() == v@[i as int]);
        if is_whitespace(v[i]) {
            if in_word {
                sp.push((start, i));
                assert(spans_view(v@, sp@) =~= before.push(v@.subrange(start as int, i as int)));
            }
            in_word = false;
            start = i;
        } else {
            if in_word {
                assert(s[s.len() - 2] == v@[i - 1]);
                assert(v@.subrange(start as int, i + 1) =~= v@.subrange(
                    start as int,
                    i as int,
                ).push(v@[i as int]));
            } else {
                start = i;
                assert(v@.subrange(start as int, i + 1) =~= seq![v@[i as int]]);
                assert(s.len() >= 2 ==> s[s.len() - 2] == v@[i - 1]);
            }
            in_word = true;
        }
        i += 1;
    }
    if in_word {
        let ghost before = spans_view(v@, sp@);
        sp.push((start, hi));
        assert(spans_view(v@, sp@) =~= before.push(v@.subrange(start as int, hi as int)));
    }
    sp
}

/// Where the first four spaces of `v[lo..hi]` start, as an index into `v`.
pub fn find_sep(v: &Vec<char>, lo: usize, hi: usize) -> (r: Option<usize>)
    requires
        lo <= hi <= v@.len(),
    ensures
        match r {
            Some(k) => lo <= k && k + 4 <= hi && find_sep_from(
                v@.subrange(lo as int, hi as int),
                0,
            ) == Some(k - lo),
            None => find_sep_from(v@.subrange(lo as int, hi as int), 0) is None,
        },
{
    let ghost s = v@.subrange(lo as int, hi as int);
    let mut i = lo;
    while i < hi && hi - i >= 4
        invariant
            lo <= i <= hi <= v@.len(),
            s == v@.subrange(lo as int, hi as int),
            find_sep_from(s, 0) == find_sep_from(s, i - lo),
        decreases hi - i,
    {
        if v[i] == ' ' && v[i + 1] == ' ' && v[i + 2] == ' ' && v[i + 3] == ' ' {
            assert(sep_at(s, i - lo));
            return Some(i);
        }
        assert(!sep_at(s, i - lo));
        i += 1;
    }
    None
}


/// Whether `v[lo..hi]` spells `lit`.
pub fn span_equals(v: &Vec<char>, lo: usize, hi: usize, lit: &[char]) -> (b: bool)
    requires
        lo <= hi <= v@.len(),
    ensures
        b == (v@.subrange(lo as int, hi as int) == lit@),
{
    if hi - lo != lit.len() {
        return false;
    }
    let mut i: usize = 0;
    while i < lit.len()
        invariant
            lo <= hi <= v@.len(),
            hi - lo == lit@.len(),
            0 <= i <= lit@.len(),
            forall|j: int| 0 <= j < i ==> v@[lo + j] == lit@[j],
        decreases lit@.len() - i,
    {
        if v[lo + i] != lit[i] {
            assert(v@.subrange(lo as int, hi as int)[i as int] != lit@[i as int]);
            return false;
        }
        i += 1;
    }
    assert(v@.subrange(lo as int, hi as int) =~= lit@);
    true
}


/// The UTF-8 encoding of a character other than the ASCII character `b` holds
/// no byte `b`.
proof fn lemma_scalar_avoids_ascii(c: char, b: u8)
    requires
        b < 0x80,
        c as u32 != b as u32,
    ensures
        forall|j: int| 0 <= j < encode_scalar(c as u32).len() ==> #[trigger] encode_scalar(
            c as u32,
        )[j] != b,
{
    let u = c as u32;
    char_is_scalar(c);
    if has_width_1_encoding(u) {
        assert((u & 0x7F) as u8 == u) by (bit_vector)
            requires
                u <= 0x7F,
        ;
    } else {
        assert(forall|x: u8| #[trigger] (0xC0u8 | x) >= 0x80u8) by (bit_vector);
        assert(forall|x: u8| #[trigger] (0xE0u8 | x) >= 0x80u8) by (bit_vector);
        assert(forall|x: u8| #[trigger] (0xF0u8 | x) >= 0x80u8) by (bit_vector);
        assert(forall|x: u8| #[trigger] (0x80u8 | x) >= 0x80u8) by (bit_vector);
    }
}

/// The UTF-8 encoding of a text without the ASCII character `b` holds no
/// byte `b`.
pub proof fn lemma_encode_avoids_ascii(msg: Seq<char>, b: u8)
    requires
        b < 0x80,
        forall|i: int| 0 <= i < msg.len() ==> msg[i] as u32 != b as u32,
    ensures
        forall|j: int| 0 <= j < encode_utf8(msg).len() ==> encode_utf8(msg)[j] != b,
    decreases msg.len(),
{
    if msg.len() > 0 {
        lemma_scalar_avoids_ascii(msg[0], b);
        lemma_encode_avoids_ascii(msg.drop_first(), b);
        let x = encode_scalar(msg[0] as u32);
        let y = encode_utf8(msg.drop_first());
        assert(encode_utf8(msg) == x + y);
        assert forall|j: int| 0 <= j < (x + y).len() implies (x + y)[j] != b by {
            if j >= x.len() {
                assert((x + y)[j] == y[j - x.len()]);
            }
        }
    }
}

/// The lines of the text `s` after trimming it: its pieces between `\n`s.
pub fn trimmed_lines(s: &str) -> (r: Vec<String>)
    ensures
        r@.len() == split_on(trim(s@), '\n').len(),
        forall|i: int| 0 <= i < r@.len() ==> (#[trigger] r@[i])@ == split_on(trim(s@), '\n')[i],
{
    let v = chars_of(s);
    let (lo, hi) = trim_bounds(&v, 0, v.len());
    assert(v@.subrange(0, v@.len() as int) =~= s@);
    let sp = split_spans(&v, lo, hi, '\n');
    let ghost ls = spans_view(v@, sp@);
    let mut r: Vec<String> = Vec::new();
    let mut k: usize = 0;
    while k < sp.len()
        invariant
            ls == spans_view(v@, sp@),
            spans_within(sp@, lo as int, hi as int),
            hi <= v@.len(),
            0 <= k <= sp@.len(),
            r@.len() == k,
            forall|i: int| 0 <= i < k ==> (#[trigger] r@[i])@ == ls[i],
        decreases sp@.len() - k,
    {
        let (a, b) = sp[k];
        r.push(string_of(&v, a, b));
        k += 1;
    }
    r
}

/// The line `line` split at its first four spaces (see [`split_at_sep`]).
pub fn split_entry(line: &str) -> (r: Option<(String, String)>)
    ensures
        match r {
            Some(p) => split_at_sep(line@) == Some((p.0@, p.1@)),
            None => split_at_sep(line@) is None,
        },
{
    let v = chars_of(line);
    assert(v@.subrange(0, v@.len() as int) =~= v@);
    match find_sep(&v, 0, v.len()) {
        Some(q) => {
            let h = string_of(&v, 0, q);
            let n = string_of(&v, q + 4, v.len());
            assert(h@ =~= v@.take(q as int));
            assert(n@ =~= v@.skip(q + 4));
            Some((h, n))
        },
        None => None,
    }
}

} // verus!
