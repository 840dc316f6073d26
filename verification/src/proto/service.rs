//! The server's file service: the manifest of stored files and their MD5
//! digests, and the computations behind each request.

use vstd::prelude::*;
use vstd::utf8::*;
use vstd::string::StringExecFns;
use crate::proto::line::{Request, RequestView};
use crate::text::{from_utf8_lossy, lossy_text, push_char, trim, trim_start, trim_end, split_on, find_sep_from, split_at_sep, sep_at, is_ws, lemma_find_sep_from, lemma_split_on_nonempty, trimmed_lines, split_entry};

verus! {

broadcast use vstd::string::group_string_axioms;

/// What MD5 (the `md5` crate) computes of the bytes `data`.
pub uninterp spec fn md5_digest(data: Seq<u8>) -> Seq<u8>;

/// `md5::compute`: the MD5 digest of `data`, whose sixteen bytes the crate's
/// `Digest` type holds. Claimed: the result is the named function
/// [`md5_digest`] of the input, and has sixteen bytes.
#[verifier::external_body]
pub(crate) fn md5_compute(data: &[u8]) -> (d: Vec<u8>)
    ensures
        d@ == md5_digest(data@),
        d@.len() == 16,
{
    md5::compute(data).0.to_vec()
}

/// The lower-case hexadecimal digit for `n < 16`.
pub open spec fn hex_digit(n: int) -> char {
    if n < 10 {
        (('0' as int) + n) as char
    } else {
        (('a' as int) + n - 10) as char
    }
}

/// `d` written as lower-case hexadecimal, two digits per byte (the
/// `{:x}` format of an MD5 digest).
pub open spec fn hex_lower(d: Seq<u8>) -> Seq<char>
    decreases d.len(),
{
    if d.len() == 0 {
        seq![]
    } else {
        hex_lower(d.drop_last()) + seq![hex_digit(d.last() as int / 16), hex_digit(d.last() as int % 16)]
    }
}

/// The digest text that the manifest records for a file with the text `t`.
pub open spec fn digest_text(t: Seq<char>) -> Seq<char> {
    hex_lower(md5_digest(encode_utf8(t)))
}

/// Hexadecimal text has two digits per byte, none of them white space.
pub proof fn lemma_hex_lower(d: Seq<u8>)
    ensures
        hex_lower(d).len() == 2 * d.len(),
        forall|i: int| 0 <= i < hex_lower(d).len() ==> !is_ws(#[trigger] hex_lower(d)[i]),
    decreases d.len(),
{
    if d.len() > 0 {
        lemma_hex_lower(d.drop_last());
        let a = hex_lower(d.drop_last());
        let b = seq![hex_digit(d.last() as int / 16), hex_digit(d.last() as int % 16)];
        assert(hex_lower(d) == a + b);
        assert forall|i: int| 0 <= i < (a + b).len() implies !is_ws(#[trigger] (a + b)[i]) by {
            if i < a.len() {
                assert((a + b)[i] == a[i]);
            } else {
                let k = if i == a.len() { d.last() as int / 16 } else { d.last() as int % 16 };
                assert((a + b)[i] == hex_digit(k));
                assert(0 <= k < 16);
                assert(hex_digit(k) as u32 == if k < 10 { 48 + k } else { 87 + k });
            }
        }
    }
}

/// The value of a lower-case hexadecimal digit.
pub open spec fn hex_value(c: char) -> int {
    if c <= '9' {
        c as int - '0' as int
    } else {
        c as int - 'a' as int + 10
    }
}

/// Hex law: the text of `d` is two lower-case hexadecimal digits per byte,
/// the first for the byte's high half and the second for its low half, so
/// the text gives back every byte of `d`.
pub proof fn lemma_hex_lower_decodes(d: Seq<u8>)
    ensures
        hex_lower(d).len() == 2 * d.len(),
        forall|i: int| 0 <= i < 2 * d.len() ==> {
            let c = #[trigger] hex_lower(d)[i];
            ('0' <= c <= '9') || ('a' <= c <= 'f')
        },
        forall|i: int| 0 <= i < d.len() ==>
            hex_value(hex_lower(d)[2 * i]) * 16 + hex_value(hex_lower(d)[2 * i + 1]) == #[trigger] d[i],
    decreases d.len(),
{
    lemma_hex_lower(d);
    if d.len() > 0 {
        let p = d.drop_last();
        lemma_hex_lower_decodes(p);
        let a = hex_lower(p);
        let hi = d.last() as int / 16;
        let lo = d.last() as int % 16;
        let b = seq![hex_digit(hi), hex_digit(lo)];
        assert(hex_lower(d) == a + b);
        assert(0 <= hi < 16 && 0 <= lo < 16);
        assert(hex_digit(hi) as u32 == if hi < 10 { 48 + hi } else { 87 + hi });
        assert(hex_digit(lo) as u32 == if lo < 10 { 48 + lo } else { 87 + lo });
        assert(hex_value(hex_digit(hi)) == hi);
        assert(hex_value(hex_digit(lo)) == lo);
        assert forall|i: int| 0 <= i < 2 * d.len() implies {
            let c = #[trigger] hex_lower(d)[i];
            ('0' <= c <= '9') || ('a' <= c <= 'f')
        } by {
            if i < a.len() {
                assert((a + b)[i] == a[i]);
            } else {
                assert((a + b)[i] == b[i - a.len()]);
            }
        }
        assert forall|i: int| 0 <= i < d.len() implies
            hex_value(hex_lower(d)[2 * i]) * 16 + hex_value(hex_lower(d)[2 * i + 1]) == #[trigger] d[i] by {
            if i < p.len() {
                assert((a + b)[2 * i] == a[2 * i]);
                assert((a + b)[2 * i + 1] == a[2 * i + 1]);
                assert(p[i] == d[i]);
            } else {
                assert((a + b)[2 * i] == b[0]);
                assert((a + b)[2 * i + 1] == b[1]);
                assert(d[i] == d.last());
            }
        }
    }
}

/// Hexadecimal text tells bytes apart: two byte sequences have the same text
/// exactly when they are equal.
pub proof fn lemma_hex_lower_injective(d1: Seq<u8>, d2: Seq<u8>)
    ensures
        hex_lower(d1) == hex_lower(d2) <==> d1 == d2,
{
    lemma_hex_lower_decodes(d1);
    lemma_hex_lower_decodes(d2);
    if hex_lower(d1) == hex_lower(d2) {
        assert forall|i: int| 0 <= i < d1.len() implies d1[i] == d2[i] by {
            assert(d1[i] == hex_value(hex_lower(d1)[2 * i]) * 16 + hex_value(hex_lower(d1)[2 * i + 1]));
            assert(d2[i] == hex_value(hex_lower(d2)[2 * i]) * 16 + hex_value(hex_lower(d2)[2 * i + 1]));
        }
        assert(d1 =~= d2);
    }
}

/// Digest law: the manifest records the same digest for two texts exactly
/// when MD5 gives the same digest of all their UTF-8 bytes; any change of
/// the bytes that changes their MD5, wherever it stands, changes the digest.
pub proof fn lemma_digest_text_covers_all_bytes(t1: Seq<char>, t2: Seq<char>)
    ensures
        digest_text(t1) == digest_text(t2) <==> md5_digest(encode_utf8(t1)) == md5_digest(
            encode_utf8(t2),
        ),
{
    lemma_hex_lower_injective(md5_digest(encode_utf8(t1)), md5_digest(encode_utf8(t2)));
}

/// The lower-case hexadecimal digit for `n < 16`.
fn hex_char(n: u8) -> (c: char)
    requires
        n < 16,
    ensures
        c == hex_digit(n as int),
{
    if n < 10 {
        (48 + n) as char
    } else {
        (87 + n) as char
    }
}

/// `d` as lower-case hexadecimal text.
pub fn to_hex(d: &Vec<u8>) -> (s: String)
    ensures
        s@ == hex_lower(d@),
{
    let mut s = String::new();
    let mut i: usize = 0;
    while i < d.len()
        invariant
            0 <= i <= d@.len(),
            s@ == hex_lower(d@.take(i as int)),
        decreases d@.len() - i,
    {
        let b = d[i];
        assert(d@.take(i + 1).drop_last() =~= d@.take(i as int));
        push_char(&mut s, hex_char(b / 16));
        push_char(&mut s, hex_char(b % 16));
        i += 1;
    }
    assert(d@.take(d@.len() as int) =~= d@);
    s
}


/// The map that the (name, digest) pairs `p` describe, a later pair for a
/// name taking the place of an earlier one.
pub open spec fn pairs_map<V>(p: Seq<(Seq<char>, V)>) -> Map<Seq<char>, V>
    decreases p.len(),
{
    if p.len() == 0 {
        Map::empty()
    } else {
        pairs_map(p.drop_last()).insert(p.last().0, p.last().1)
    }
}

/// No name occurs twice among the pairs `p`.
pub open spec fn distinct_names<V>(p: Seq<(Seq<char>, V)>) -> bool {
    forall|i: int, j: int| 0 <= i < p.len() && 0 <= j < p.len() && i != j ==> p[i].0 != p[j].0
}

/// The manifest line of one entry: the digest, four spaces, the name.
pub open spec fn entry_line(e: (Seq<char>, Seq<char>)) -> Seq<char> {
    e.1 + seq![' ', ' ', ' ', ' '] + e.0
}

/// The manifest text of the entries `p`: each entry's line and a newline.
pub open spec fn render(p: Seq<(Seq<char>, Seq<char>)>) -> Seq<char>
    decreases p.len(),
{
    if p.len() == 0 {
        seq![]
    } else {
        render(p.drop_last()) + entry_line(p.last()) + seq!['\n']
    }
}

/// The manifest that the lines `lines` describe: an empty line is skipped, a
/// line with four spaces maps the name after them to the digest before them,
/// and any other line makes the whole manifest unreadable.
pub open spec fn manifest_lines(lines: Seq<Seq<char>>) -> Option<Map<Seq<char>, Seq<char>>>
    decreases lines.len(),
{
    if lines.len() == 0 {
        Some(Map::empty())
    } else {
        match manifest_lines(lines.drop_last()) {
            None => None,
            Some(m) => {
                let l = lines.last();
                if l.len() == 0 {
                    Some(m)
                } else {
                    match split_at_sep(l) {
                        Some((h, n)) => Some(m.insert(n, h)),
                        None => None,
                    }
                }
            },
        }
    }
}

/// The manifest that the text `s` holds: its lines after trimming.
pub open spec fn contents_of(s: Seq<char>) -> Option<Map<Seq<char>, Seq<char>>> {
    manifest_lines(split_on(trim(s), '\n'))
}

/// The manifest: for each stored file's name, the digest of its text.
pub struct Contents {
    entries: Vec<(String, String)>,
}

impl Contents {
    /// The entries as (name, digest) pairs, in the order in which their names
    /// were first recorded.
    pub closed spec fn listing(&self) -> Seq<(Seq<char>, Seq<char>)> {
        self.entries@.map_values(|e: (String, String)| (e.0@, e.1@))
    }

    #[verifier::type_invariant]
    spec fn names_distinct(&self) -> bool {
        distinct_names(self.listing())
    }
}

impl View for Contents {
    type V = Map<Seq<char>, Seq<char>>;

    open spec fn view(&self) -> Map<Seq<char>, Seq<char>> {
        pairs_map(self.listing())
    }
}

/// Replacing the pair of a name with another pair for that name replaces the
/// name's value.
pub proof fn lemma_pairs_map_update<V>(p: Seq<(Seq<char>, V)>, i: int, x: (Seq<char>, V))
    requires
        distinct_names(p),
        0 <= i < p.len(),
        p[i].0 == x.0,
    ensures
        pairs_map(p.update(i, x)) == pairs_map(p).insert(x.0, x.1),
        distinct_names(p.update(i, x)),
    decreases p.len(),
{
    let q = p.update(i, x);
    assert(q.drop_last() =~= if i == p.len() - 1 { p.drop_last() } else { p.drop_last().update(i, x) });
    if i < p.len() - 1 {
        lemma_pairs_map_update(p.drop_last(), i, x);
        assert(p.last().0 != x.0);
        assert(pairs_map(q) =~= pairs_map(p).insert(x.0, x.1));
    } else {
        assert(pairs_map(q) =~= pairs_map(p).insert(x.0, x.1));
    }
}

/// The entry that the distinct pairs `p` hold at `i` is the map's entry for
/// its name.
pub proof fn lemma_pairs_map_lookup<V>(p: Seq<(Seq<char>, V)>, i: int)
    requires
        distinct_names(p),
        0 <= i < p.len(),
    ensures
        pairs_map(p).contains_key(p[i].0),
        pairs_map(p)[p[i].0] == p[i].1,
    decreases p.len(),
{
    if i < p.len() - 1 {
        assert(distinct_names(p.drop_last()));
        assert(p.drop_last()[i] == p[i]);
        lemma_pairs_map_lookup(p.drop_last(), i);
    }
}

/// Distinct pairs make a map with as many entries.
pub proof fn lemma_pairs_map_len<V>(p: Seq<(Seq<char>, V)>)
    requires
        distinct_names(p),
    ensures
        pairs_map(p).dom().finite(),
        pairs_map(p).len() == p.len(),
    decreases p.len(),
{
    if p.len() > 0 {
        assert(distinct_names(p.drop_last()));
        lemma_pairs_map_len(p.drop_last());
        assert forall|i: int| 0 <= i < p.drop_last().len() implies p.drop_last()[i].0 != p.last().0 by {
            assert(p.drop_last()[i] == p[i]);
        }
        lemma_pairs_map_absent(p.drop_last(), p.last().0);
    }
}

/// A name that no pair carries is not in the map.
pub proof fn lemma_pairs_map_absent<V>(p: Seq<(Seq<char>, V)>, n: Seq<char>)
    requires
        forall|i: int| 0 <= i < p.len() ==> p[i].0 != n,
    ensures
        !pairs_map(p).contains_key(n),
    decreases p.len(),
{
    if p.len() > 0 {
        lemma_pairs_map_absent(p.drop_last(), n);
    }
}

/// The index of the pair of `entries` whose name is `name`, if one has it.
pub(crate) fn find_name<V>(entries: &Vec<(String, V)>, name: &String) -> (r: Option<usize>)
    ensures
        match r {
            Some(i) => i < entries@.len() && entries@[i as int].0@ == name@,
            None => forall|j: int| 0 <= j < entries@.len() ==> (#[trigger] entries@[j]).0@ != name@,
        },
{
    let mut i: usize = 0;
    while i < entries.len()
        invariant
            0 <= i <= entries@.len(),
            forall|j: int| 0 <= j < i ==> (#[trigger] entries@[j]).0@ != name@,
        decreases entries@.len() - i,
    {
        if entries[i].0 == *name {
            return Some(i);
        }
        i += 1;
    }
    None
}

impl Contents {
    /// An empty manifest.
    pub fn new() -> (c: Contents)
        ensures
            c@ == Map::<Seq<char>, Seq<char>>::empty(),
            c.listing().len() == 0,
    {
        let c = Contents { entries: Vec::new() };
        assert(c.listing() =~= Seq::<(Seq<char>, Seq<char>)>::empty());
        c
    }

    /// Records `digest` for `name`, in place of what it had.
    pub(crate) fn set_entry(&mut self, name: String, digest: String)
        ensures
            final(self)@ == old(self)@.insert(name@, digest@),
    {
        proof {
            use_type_invariant(&*self);
        }
        let ghost p = self.listing();
        let ghost x = (name@, digest@);
        let mut entries: Vec<(String, String)> = Vec::new();
        std::mem::swap(&mut entries, &mut self.entries);
        match find_name(&entries, &name) {
            Some(i) => {
                proof {
                    lemma_pairs_map_update(p, i as int, x);
                }
                entries.set(i, (name, digest));
                assert(entries@.map_values(|e: (String, String)| (e.0@, e.1@)) =~= p.update(
                    i as int,
                    x,
                ));
            },
            None => {
                proof {
                    lemma_pairs_map_absent(p, name@);
                }
                entries.push((name, digest));
                assert(entries@.map_values(|e: (String, String)| (e.0@, e.1@)) =~= p.push(x));
                assert(p.push(x).drop_last() =~= p);
            },
        }
        self.entries = entries;
    }

    /// Records for `name` the MD5 digest of `text`, in lower-case hexadecimal.
    pub fn insert(&mut self, name: String, text: &str)
        ensures
            final(self)@ == old(self)@.insert(name@, digest_text(text@)),
            final(self)@[name@] == hex_lower(md5_digest(encode_utf8(text@))),
            digest_text(text@).len() == 32,
            valid_digest(digest_text(text@)),
    {
        let d = md5_compute(text.as_bytes());
        proof {
            lemma_hex_lower(d@);
        }
        self.set_entry(name, to_hex(&d));
    }
}


/// A manifest whose first lines are unreadable is unreadable.
proof fn lemma_manifest_prefix_none(l: Seq<Seq<char>>, k: int)
    requires
        0 <= k <= l.len(),
        manifest_lines(l.take(k)) is None,
    ensures
        manifest_lines(l) is None,
    decreases l.len() - k,
{
    if k < l.len() {
        assert(l.take(k + 1).drop_last() =~= l.take(k));
        lemma_manifest_prefix_none(l, k + 1);
    } else {
        assert(l.take(k) =~= l);
    }
}

impl Contents {
    /// The digest recorded for `name`.
    pub fn get(&self, name: &str) -> (r: Option<String>)
        ensures
            match r {
                Some(d) => self@.contains_key(name@) && self@[name@] == d@,
                None => !self@.contains_key(name@),
            },
    {
        proof {
            use_type_invariant(self);
        }
        let ghost p = self.listing();
        match find_name(&self.entries, &name.to_owned()) {
            Some(i) => {
                proof {
                    lemma_pairs_map_lookup(p, i as int);
                }
                Some(self.entries[i].1.clone())
            },
            None => {
                proof {
                    lemma_pairs_map_absent(p, name@);
                }
                None
            },
        }
    }

    /// The number of entries.
    pub fn len(&self) -> (n: usize)
        ensures
            n == self@.len(),
    {
        proof {
            use_type_invariant(self);
            lemma_pairs_map_len(self.listing());
        }
        self.entries.len()
    }

    /// Reads a manifest: its trimmed text, line by line (see [`contents_of`]).
    pub fn from_string(s: &str) -> (r: Option<Contents>)
        ensures
            match r {
                Some(c) => contents_of(s@) == Some(c@),
                None => contents_of(s@) is None,
            },
    {
        let lines = trimmed_lines(s);
        let ghost ls = split_on(trim(s@), '\n');
        let mut c = Contents::new();
        let mut k: usize = 0;
        assert(ls.take(0) =~= Seq::<Seq<char>>::empty());
        while k < lines.len()
            invariant
                ls == split_on(trim(s@), '\n'),
                lines@.len() == ls.len(),
                forall|i: int| 0 <= i < ls.len() ==> (#[trigger] lines@[i])@ == ls[i],
                0 <= k <= lines@.len(),
                manifest_lines(ls.take(k as int)) == Some(c@),
            decreases lines@.len() - k,
        {
            assert(ls.take(k + 1).drop_last() =~= ls.take(k as int));
            assert(ls.take(k + 1).last() == lines@[k as int]@);
            let line = lines[k].as_str();
            if !line.is_empty() {
                match split_entry(line) {
                    Some((hash, name)) => {
                        c.set_entry(name, hash);
                    },
                    None => {
                        proof {
                            lemma_manifest_prefix_none(ls, k + 1);
                        }
                        return None;
                    },
                }
            }
            k += 1;
        }
        assert(ls.take(lines@.len() as int) =~= ls);
        Some(c)
    }

    /// Writes the manifest: one line per entry, its digest, four spaces and
    /// its name, each line ending in a newline.
    pub fn to_string(&self) -> (s: String)
        ensures
            s@ == render(self.listing()),
            distinct_names(self.listing()),
    {
        proof {
            use_type_invariant(self);
        }
        let ghost p = self.listing();
        let mut s = String::new();
        let mut i: usize = 0;
        assert(p.take(0) =~= Seq::<(Seq<char>, Seq<char>)>::empty());
        while i < self.entries.len()
            invariant
                p == self.listing(),
                0 <= i <= self.entries@.len(),
                s@ == render(p.take(i as int)),
            decreases self.entries@.len() - i,
        {
            let e = &self.entries[i];
            assert(p[i as int] == (e.0@, e.1@));
            s.append(e.1.as_str());
            push_char(&mut s, ' ');
            push_char(&mut s, ' ');
            push_char(&mut s, ' ');
            push_char(&mut s, ' ');
            s.append(e.0.as_str());
            push_char(&mut s, '\n');
            assert(p.take(i + 1).drop_last() =~= p.take(i as int));
            assert(s@ =~= render(p.take(i + 1)));
            i += 1;
        }
        assert(p.take(i as int) =~= p);
        s
    }
}


/// A digest that a manifest line can carry and give back: non-empty, without
/// white space (the hexadecimal digests of [`Contents::insert`] are such).
pub open spec fn valid_digest(h: Seq<char>) -> bool {
    h.len() > 0 && forall|i: int| 0 <= i < h.len() ==> !is_ws(#[trigger] h[i])
}

/// A file name that a manifest line can carry and give back: non-empty,
/// without newline, not ending in white space.
pub open spec fn valid_name(n: Seq<char>) -> bool {
    &&& n.len() > 0
    &&& !is_ws(n.last())
    &&& forall|i: int| 0 <= i < n.len() ==> #[trigger] n[i] != '\n'
}

/// Every entry of `p` has a valid digest and a valid name.
pub open spec fn entries_valid(p: Seq<(Seq<char>, Seq<char>)>) -> bool {
    forall|i: int| 0 <= i < p.len() ==> valid_digest(#[trigger] p[i].1) && valid_name(p[i].0)
}

/// Validity of the entries passes to their prefix.
pub proof fn lemma_entries_valid_drop_last(p: Seq<(Seq<char>, Seq<char>)>)
    requires
        entries_valid(p),
        p.len() > 0,
    ensures
        entries_valid(p.drop_last()),
        valid_digest(p.last().1),
        valid_name(p.last().0),
{
    let q = p.drop_last();
    assert forall|i: int| 0 <= i < q.len() implies valid_digest(#[trigger] q[i].1) && valid_name(
        q[i].0,
    ) by {
        assert(q[i] == p[i]);
        assert(valid_digest(p[i].1));
    }
    assert(valid_digest(p[p.len() - 1].1));
}

/// Every name of the manifest `m` is valid, and so is its digest.
pub open spec fn manifest_valid(m: Map<Seq<char>, Seq<char>>) -> bool {
    forall|k: Seq<char>| #[trigger] m.contains_key(k) ==> valid_name(k) && valid_digest(m[k])
}

/// The lines of the entries `p` joined by newlines.
pub open spec fn joined(p: Seq<(Seq<char>, Seq<char>)>) -> Seq<char>
    decreases p.len(),
{
    if p.len() <= 1 {
        if p.len() == 1 {
            entry_line(p[0])
        } else {
            seq![]
        }
    } else {
        joined(p.drop_last()) + seq!['\n'] + entry_line(p.last())
    }
}

/// A text without the separator is one piece.
proof fn lemma_split_no_sep(y: Seq<char>, sep: char)
    requires
        forall|i: int| 0 <= i < y.len() ==> y[i] != sep,
    ensures
        split_on(y, sep) == seq![y],
    decreases y.len(),
{
    if y.len() > 0 {
        lemma_split_no_sep(y.drop_last(), sep);
        assert(y.drop_last().push(y.last()) =~= y);
        assert(split_on(y, sep) =~= seq![y]);
    } else {
        assert(y =~= Seq::<char>::empty());
        assert(split_on(y, sep) =~= seq![y]);
    }
}

/// Splitting two texts joined by the separator gives the pieces of each.
proof fn lemma_split_concat(x: Seq<char>, y: Seq<char>, sep: char)
    ensures
        split_on(x + seq![sep] + y, sep) == split_on(x, sep) + split_on(y, sep),
    decreases y.len(),
{
    let z = x + seq![sep] + y;
    if y.len() == 0 {
        assert(z.drop_last() =~= x);
        assert(split_on(z, sep) =~= split_on(x, sep) + split_on(y, sep));
    } else {
        assert(z.drop_last() =~= x + seq![sep] + y.drop_last());
        lemma_split_concat(x, y.drop_last(), sep);
        lemma_split_on_nonempty(y.drop_last(), sep);
        assert(split_on(z, sep) =~= split_on(x, sep) + split_on(y, sep));
    }
}

/// A rendered manifest is its lines joined by newlines, with a newline after
/// the last, which starts with the first entry's line and ends with the last's.
pub proof fn lemma_render_joined(p: Seq<(Seq<char>, Seq<char>)>)
    requires
        p.len() >= 1,
    ensures
        render(p) == joined(p) + seq!['\n'],
        joined(p).len() >= entry_line(p[0]).len(),
        joined(p).take(entry_line(p[0]).len() as int) == entry_line(p[0]),
        joined(p).len() >= entry_line(p.last()).len(),
        joined(p).skip(joined(p).len() - entry_line(p.last()).len()) == entry_line(p.last()),
    decreases p.len(),
{
    let l = entry_line(p.last());
    if p.len() == 1 {
        assert(p.drop_last() =~= Seq::<(Seq<char>, Seq<char>)>::empty());
        assert(render(p.drop_last()) =~= Seq::<char>::empty());
        assert(p.last() == p[0]);
        assert(render(p) =~= joined(p) + seq!['\n']);
        assert(joined(p).take(entry_line(p[0]).len() as int) =~= entry_line(p[0]));
        assert(joined(p).skip(0) =~= l);
    } else {
        lemma_render_joined(p.drop_last());
        let j = joined(p.drop_last());
        assert(render(p) =~= joined(p) + seq!['\n']);
        assert(joined(p).take(entry_line(p[0]).len() as int) =~= j.take(
            entry_line(p[0]).len() as int,
        ));
        assert(joined(p).skip(joined(p).len() - l.len()) =~= l);
    }
}

/// An entry line with a valid digest and name holds no newline.
proof fn lemma_entry_line_no_newline(e: (Seq<char>, Seq<char>))
    requires
        valid_digest(e.1),
        valid_name(e.0),
    ensures
        forall|i: int| 0 <= i < entry_line(e).len() ==> entry_line(e)[i] != '\n',
{
    let l = entry_line(e);
    assert forall|i: int| 0 <= i < l.len() implies l[i] != '\n' by {
        if i < e.1.len() {
            assert(l[i] == e.1[i]);
            assert(!is_ws(e.1[i]));
        } else if i >= e.1.len() + 4 {
            assert(l[i] == e.0[i - e.1.len() - 4]);
        }
    }
}

/// The lines joined by newlines split back into the lines.
pub proof fn lemma_split_joined(p: Seq<(Seq<char>, Seq<char>)>)
    requires
        p.len() >= 1,
        entries_valid(p),
    ensures
        split_on(joined(p), '\n') == p.map_values(|e: (Seq<char>, Seq<char>)| entry_line(e)),
    decreases p.len(),
{
    lemma_entries_valid_drop_last(p);
    lemma_entry_line_no_newline(p.last());
    lemma_split_no_sep(entry_line(p.last()), '\n');
    if p.len() == 1 {
        assert(split_on(joined(p), '\n') =~= p.map_values(
            |e: (Seq<char>, Seq<char>)| entry_line(e),
        ));
    } else {
        lemma_split_joined(p.drop_last());
        lemma_split_concat(joined(p.drop_last()), entry_line(p.last()), '\n');
        assert(split_on(joined(p), '\n') =~= p.map_values(
            |e: (Seq<char>, Seq<char>)| entry_line(e),
        ));
    }
}

/// The first four spaces of an entry line are those after its digest.
pub proof fn lemma_split_entry_line(e: (Seq<char>, Seq<char>))
    requires
        valid_digest(e.1),
    ensures
        split_at_sep(entry_line(e)) == Some((e.1, e.0)),
{
    let l = entry_line(e);
    let h = e.1;
    lemma_find_sep_from(l, 0);
    assert(sep_at(l, h.len() as int));
    assert(is_ws(' '));
    match find_sep_from(l, 0) {
        Some(k) => {
            if k < h.len() {
                assert(l[k] == h[k]);
                assert(!is_ws(h[k]));
            }
            assert(!(k > h.len()));
        },
        None => {},
    }
    assert(l.take(h.len() as int) =~= h);
    assert(l.skip((h.len() + 4) as int) =~= e.0);
}

/// Entry lines with valid digests read back as the entries' map.
proof fn lemma_manifest_lines_of(p: Seq<(Seq<char>, Seq<char>)>)
    requires
        forall|i: int| 0 <= i < p.len() ==> valid_digest(#[trigger] p[i].1),
    ensures
        manifest_lines(p.map_values(|e: (Seq<char>, Seq<char>)| entry_line(e))) == Some(
            pairs_map(p),
        ),
    decreases p.len(),
{
    let ls = p.map_values(|e: (Seq<char>, Seq<char>)| entry_line(e));
    if p.len() > 0 {
        assert forall|i: int| 0 <= i < p.drop_last().len() implies valid_digest(
            #[trigger] p.drop_last()[i].1,
        ) by {
            assert(p.drop_last()[i] == p[i]);
        }
        lemma_manifest_lines_of(p.drop_last());
        assert(ls.drop_last() =~= p.drop_last().map_values(
            |e: (Seq<char>, Seq<char>)| entry_line(e),
        ));
        assert(valid_digest(p[p.len() - 1].1));
        lemma_split_entry_line(p.last());
        assert(ls.last().len() > 0);
    }
}

/// The trimmed text of a non-empty rendered manifest is its lines joined by
/// newlines.
pub proof fn lemma_trim_render(p: Seq<(Seq<char>, Seq<char>)>)
    requires
    entries_valid(p),
    p.len() > 0,
    ensures
    trim(render(p)) == joined(p),
{
    lemma_render_joined(p);
    let j = joined(p);
    let r = render(p);
    let first = entry_line(p[0]);
    let last = entry_line(p.last());
    assert(valid_digest(p[0].1));
    assert(j[0] == first[0]) by {
        assert(j.take(first.len() as int)[0] == j[0]);
    }
    assert(first[0] == p[0].1[0]);
    assert(r[0] == j[0]);
    assert(trim_start(r) == r);
    assert(r.drop_last() =~= j);
    assert(valid_name(p[p.len() - 1].0));
    assert(j.last() == last.last()) by {
        assert(j.skip(j.len() - last.len()).last() == j.last());
    }
    assert(last.last() == p.last().0.last());
    assert(trim_end(j) == j);
    assert(trim(r) == j);
}

/// Manifest law: a manifest written by [`Contents::to_string`] reads back,
/// through [`Contents::from_string`], as the same map, whenever every digest
/// is non-empty without white space and every name is non-empty, holds no
/// newline and does not end in white space.
pub proof fn lemma_manifest_roundtrip(p: Seq<(Seq<char>, Seq<char>)>)
    requires
        entries_valid(p),
    ensures
        contents_of(render(p)) == Some(pairs_map(p)),
{
    if p.len() == 0 {
        let e: Seq<char> = seq![];
        assert(render(p) == e);
        assert(trim(e) == e);
        assert(split_on(e, '\n') =~= seq![e]);
        assert(seq![e].drop_last() =~= Seq::<Seq<char>>::empty());
        assert(manifest_lines(seq![e].drop_last()) == Some(Map::<Seq<char>, Seq<char>>::empty()));
        assert(manifest_lines(seq![e]) == Some(Map::<Seq<char>, Seq<char>>::empty()));
        assert(pairs_map(p) == Map::<Seq<char>, Seq<char>>::empty());
    } else {
        lemma_trim_render(p);
        lemma_split_joined(p);
        lemma_manifest_lines_of(p);
    }
}


/// Manifest text law: the text of valid entries `p` is one line per entry,
/// in order, each the digest, four spaces and the name, every line ended by
/// a newline and nothing after the last.
pub proof fn lemma_render_lines(p: Seq<(Seq<char>, Seq<char>)>)
    requires
        entries_valid(p),
        p.len() >= 1,
    ensures
        split_on(render(p), '\n').len() == p.len() + 1,
        forall|i: int| 0 <= i < p.len() ==> #[trigger] split_on(render(p), '\n')[i] == p[i].1
            + seq![' ', ' ', ' ', ' '] + p[i].0,
        split_on(render(p), '\n')[p.len() as int] == Seq::<char>::empty(),
{
    lemma_render_joined(p);
    lemma_split_joined(p);
    let e = Seq::<char>::empty();
    assert(render(p) =~= joined(p) + seq!['\n'] + e);
    lemma_split_concat(joined(p), e, '\n');
    assert(split_on(e, '\n') =~= seq![e]);
    let ls = p.map_values(|x: (Seq<char>, Seq<char>)| entry_line(x));
    assert(split_on(render(p), '\n') == ls + seq![e]);
    assert forall|i: int| 0 <= i < p.len() implies #[trigger] split_on(render(p), '\n')[i] == p[i].1
        + seq![' ', ' ', ' ', ' '] + p[i].0 by {
        assert((ls + seq![e])[i] == ls[i]);
    }
    assert((ls + seq![e])[p.len() as int] == e);
}

/// A manifest of one line, the digest text `h`, four spaces and the name
/// `n`, maps `n` to all of `h`.
pub proof fn lemma_manifest_reads_line(h: Seq<char>, n: Seq<char>)
    requires
        valid_digest(h),
        valid_name(n),
    ensures
        contents_of(h + seq![' ', ' ', ' ', ' '] + n + seq!['\n']) == Some(
            Map::<Seq<char>, Seq<char>>::empty().insert(n, h),
        ),
{
    let p = seq![(n, h)];
    let e = Seq::<(Seq<char>, Seq<char>)>::empty();
    assert(p.drop_last() =~= e);
    assert(p.last() == (n, h));
    assert(render(e) == Seq::<char>::empty());
    assert(pairs_map(e) == Map::<Seq<char>, Seq<char>>::empty());
    assert(render(p) == render(e) + entry_line((n, h)) + seq!['\n']);
    assert(pairs_map(p) == pairs_map(e).insert(n, h));
    assert(render(p) =~= h + seq![' ', ' ', ' ', ' '] + n + seq!['\n']);
    lemma_manifest_roundtrip(p);
}

/// The base64 text (standard alphabet, with padding) that the `base64` crate
/// makes of the bytes `bytes`.
pub uninterp spec fn base64_encode(bytes: Seq<u8>) -> Seq<char>;

/// The bytes that the `base64` crate decodes from the text with the bytes
/// `text` (standard alphabet; the padding may be left out, but not be in
/// excess), when it accepts it.
pub uninterp spec fn base64_decode(text: Seq<u8>) -> Option<Seq<u8>>;

#[verifier::external_type_specification]
#[verifier::external_body]
pub struct ExDecodeError(base64::DecodeError);

/// `base64::encode`. Claimed: the result is the named function
/// [`base64_encode`] of the bytes, and `base64::decode` gives those bytes back
/// from it.
#[verifier::external_body]
fn b64_encode(data: &[u8]) -> (s: String)
    ensures
        s@ == base64_encode(data@),
        base64_decode(encode_utf8(s@)) == Some(data@),
{
    base64::encode(data)
}

/// `base64::decode`. Claimed: it succeeds exactly when the named function
/// [`base64_decode`] of the text's bytes is defined, with those bytes.
#[verifier::external_body]
fn b64_decode(text: &str) -> (r: Result<Vec<u8>, base64::DecodeError>)
    ensures
        r is Ok <==> base64_decode(encode_utf8(text@)) is Some,
        r matches Ok(v) ==> base64_decode(encode_utf8(text@)) == Some(v@),
{
    base64::decode(text)
}

/// The last component of the path with the characters `path`, as
/// `Path::file_name` finds it (`None` for a path that ends in `..` or has no
/// component, such as `/`).
pub uninterp spec fn path_file_name(path: Seq<char>) -> Option<Seq<char>>;

/// A path of one normal component on every platform: non-empty, neither `.`
/// nor `..`, and without `/`, `\` or `:` (Windows reads `\` as a separator
/// and `C:` as a drive prefix).
pub open spec fn single_component(p: Seq<char>) -> bool {
    &&& p.len() > 0
    &&& !p.contains('/')
    &&& !p.contains('\\')
    &&& !p.contains(':')
    &&& p != seq!['.']
    &&& p != seq!['.', '.']
}

/// `Path::file_name` of the path `path`, as a string. Claimed: the result is
/// the named function [`path_file_name`] of the path, and a path of one
/// normal component (see [`single_component`]) is its own file name.
#[verifier::external_body]
fn file_name_of(path: &str) -> (r: Option<String>)
    ensures
        r is None <==> path_file_name(path@) is None,
        r matches Some(n) ==> path_file_name(path@) == Some(n@),
        r is Some || !single_component(path@),
        r matches Some(n) ==> n@ == path@ || !single_component(path@),
{
    match std::path::Path::new(path).file_name() {
        Some(n) => Some(n.to_string_lossy().into_owned()),
        None => None,
    }
}

/// Why the service could not carry out a request.
#[derive(Debug, PartialEq, Eq)]
pub enum ServiceError {
    /// The text of a `put` is not base64.
    InvalidBase64,
    /// The manifest file does not hold a manifest.
    BadManifest,
    /// The path of a `put` has no file name.
    NotAFile,
}

/// The server's file service, which keeps its files in a directory.
pub struct Rsync {
    /// The directory that holds the files and the manifest.
    pub dir: String,
}

/// What the service does to answer a request.
#[derive(Debug, PartialEq, Eq)]
pub enum Step {
    /// Answer with the text of the manifest file.
    Manifest,
    /// Answer with the modification time of the file, in seconds since the
    /// Unix epoch.
    Query(String),
    /// Answer with the file's text in base64 (see [`Rsync::get_b64`]).
    Get(String),
    /// Store the decoded text under the file's name and record its digest
    /// (see [`Rsync::decode_b64`] and [`Rsync::updated_manifest`]), then
    /// answer [`Rsync::ack`].
    Put { file: String, text: String },
    /// Answer with this text.
    Reply(String),
}

/// The text that a `put` of the base64 text with the bytes `b64` stores:
/// `None` when the crate refuses it as base64.
pub open spec fn put_text(b64: Seq<u8>) -> Option<Seq<char>> {
    match base64_decode(b64) {
        Some(bytes) => Some(lossy_text(bytes)),
        None => None,
    }
}

/// The answer to a request that the service does not understand.
pub open spec fn invalid_reply() -> Seq<char> {
    "ERROR: try command contents|query|get|put"@
}

impl Rsync {
    /// Decides how to answer the request `req`.
    pub fn call(&self, req: Request) -> (s: Step)
        ensures
            match req@ {
                RequestView::Contents => s == Step::Manifest,
                RequestView::Query(f) => s matches Step::Query(g) && g@ == f,
                RequestView::Get(f) => s matches Step::Get(g) && g@ == f,
                RequestView::Put { file, text } => s matches Step::Put { file: g, text: t }
                    && g@ == file && t@ == text,
                RequestView::Invalid => s matches Step::Reply(m) && m@ == invalid_reply(),
            },
    {
        match req {
            Request::Contents => Step::Manifest,
            Request::Query(f) => Step::Query(f),
            Request::Get(f) => Step::Get(f),
            Request::Put { file, text } => Step::Put { file, text },
            Request::Invalid => Step::Reply("ERROR: try command contents|query|get|put".to_owned()),
        }
    }

    /// The answer to a `put` that was carried out.
    pub fn ack() -> (s: String)
        ensures
            s@ == "ACK"@,
    {
        "ACK".to_owned()
    }

    /// Reads the manifest file's text `manifest`.
    pub fn get_contents(manifest: &str) -> (r: Result<Contents, ServiceError>)
        ensures
            match contents_of(manifest@) {
                Some(m) => r matches Ok(c) && c@ == m,
                None => r == Err::<Contents, ServiceError>(ServiceError::BadManifest),
            },
    {
        match Contents::from_string(manifest) {
            Some(c) => Ok(c),
            None => Err(ServiceError::BadManifest),
        }
    }

    /// The answer to `get`: the base64 text of the file's text `file_text`.
    /// A `put` of the answer stores the same text again.
    pub fn get_b64(file_text: &str) -> (s: String)
        ensures
            s@ == base64_encode(encode_utf8(file_text@)),
            put_text(encode_utf8(s@)) == Some(file_text@),
    {
        let s = b64_encode(file_text.as_bytes());
        proof {
            encode_utf8_valid_utf8(file_text@);
            encode_utf8_decode_utf8(file_text@);
        }
        s
    }

    /// The text that a `put` with the base64 text `b64` stores: the decoded
    /// bytes read as UTF-8, invalid sequences replaced (see [`put_text`]).
    pub fn decode_b64(b64: &str) -> (r: Result<String, ServiceError>)
        ensures
            match put_text(encode_utf8(b64@)) {
                Some(t) => r matches Ok(s) && s@ == t,
                None => r == Err::<String, ServiceError>(ServiceError::InvalidBase64),
            },
    {
        match b64_decode(b64) {
            Ok(bytes) => Ok(from_utf8_lossy(bytes.as_slice())),
            Err(_) => Err(ServiceError::InvalidBase64),
        }
    }

    /// The manifest text after a `put` of the text `text` to the path
    /// `path`, given the manifest text `manifest` before it: the manifest with
    /// the path's file name mapped to the text's digest, its entries listed
    /// once each in some order.
    pub fn updated_manifest(manifest: &str, path: &str, text: &str) -> (r: Result<
        String,
        ServiceError,
    >)
        ensures
            match contents_of(manifest@) {
                None => r == Err::<String, ServiceError>(ServiceError::BadManifest),
                Some(m) => match path_file_name(path@) {
                    None => r == Err::<String, ServiceError>(ServiceError::NotAFile),
                    Some(n) => r matches Ok(out) && (exists|p: Seq<(Seq<char>, Seq<char>)>|
                        distinct_names(p) && pairs_map(p) == m.insert(n, digest_text(text@))
                            && out@ == render(p)) && (valid_name(n) && manifest_valid(m)
                        ==> contents_of(out@) == Some(m.insert(n, digest_text(text@)))),
                },
            },
    {
        let mut c = match Contents::from_string(manifest) {
            Some(c) => c,
            None => return Err(ServiceError::BadManifest),
        };
        let name = match file_name_of(path) {
            Some(n) => n,
            None => return Err(ServiceError::NotAFile),
        };
        let ghost n = name@;
        c.insert(name, text);
        let out = c.to_string();
        assert(pairs_map(c.listing()) == c@);
        proof {
            let p = c.listing();
            let m2 = c@;
            if valid_name(n) && manifest_valid(contents_of(manifest@)->0) {
                assert forall|i: int| 0 <= i < p.len() implies valid_digest(#[trigger] p[i].1)
                    && valid_name(p[i].0) by {
                    lemma_pairs_map_lookup(p, i);
                    assert(m2.contains_key(p[i].0));
                }
                lemma_manifest_roundtrip(p);
            }
        }
        Ok(out)
    }
}

} // verus!
