//! The plain-TCP synchroniser: a server that keeps a manifest of its files and
//! their hashes, and a client that compares its own files with the server's
//! manifest and sends or fetches what differs.
//!
//! Messages are space-separated: `contents`, `query <file>`, `get <file>` and
//! `put <file> <body>`. The manifest has one line per file: its hash as 21
//! zero-padded decimal digits, four spaces, its name.

use vstd::prelude::*;
use std::collections::hash_map::DefaultHasher;
use vstd::std_specs::hash::DefaultHasherAdditionalSpecFns;
use std::hash::{Hash, Hasher};
use vstd::string::StringExecFns;
use vstd::utf8::*;
use crate::number::{format_padded, parse_u64_span, parse_u64_spec, zero_padded, lemma_padded_parses, is_digit};
use crate::proto::service::{find_name, lemma_pairs_map_lookup, lemma_pairs_map_len, pairs_map, distinct_names, lemma_pairs_map_update, lemma_pairs_map_absent, render, entry_line, entries_valid, valid_digest, valid_name, lemma_trim_render, lemma_split_joined, lemma_split_entry_line, lemma_entries_valid_drop_last};
use crate::text::{from_utf8_lossy, lossy_text, lemma_encode_avoids_ascii, chars_of, trim, split_on, split_at_sep, push_char, is_ws, trimmed_lines, split_entry};

verus! {

broadcast use vstd::string::group_string_axioms;

/// The width of a hash in the manifest.
pub open spec fn hash_width() -> nat {
    21
}

/// The manifest entries `p` with each hash written as manifest text.
pub open spec fn padded(p: Seq<(Seq<char>, u64)>) -> Seq<(Seq<char>, Seq<char>)> {
    p.map_values(|e: (Seq<char>, u64)| (e.0, zero_padded(e.1 as nat, hash_width())))
}

/// The manifest text of the entries `p`.
pub open spec fn render_hashes(p: Seq<(Seq<char>, u64)>) -> Seq<char> {
    render(padded(p))
}

/// The map that the manifest lines `lines` describe: every line must hold
/// four spaces with a decimal `u64` before them, else the manifest is
/// unreadable; an empty line is unreadable too.
pub open spec fn hash_lines(lines: Seq<Seq<char>>) -> Option<Map<Seq<char>, u64>>
    decreases lines.len(),
{
    if lines.len() == 0 {
        Some(Map::empty())
    } else {
        match hash_lines(lines.drop_last()) {
            None => None,
            Some(m) => match split_at_sep(lines.last()) {
                Some((h, n)) => match parse_u64_spec(h) {
                    Some(v) => Some(m.insert(n, v)),
                    None => None,
                },
                None => None,
            },
        }
    }
}

/// The map that the manifest text `s` holds: its lines after trimming.
pub open spec fn hashes_of(s: Seq<char>) -> Option<Map<Seq<char>, u64>> {
    hash_lines(split_on(trim(s), '\n'))
}

/// Files and their hashes.
pub struct FileHashes {
    entries: Vec<(String, u64)>,
}

impl FileHashes {
    /// The entries as (name, hash) pairs, in the order in which their names
    /// were first recorded.
    pub closed spec fn listing(&self) -> Seq<(Seq<char>, u64)> {
        self.entries@.map_values(|e: (String, u64)| (e.0@, e.1))
    }

    #[verifier::type_invariant]
    spec fn names_distinct(&self) -> bool {
        distinct_names(self.listing())
    }
}

impl View for FileHashes {
    type V = Map<Seq<char>, u64>;

    open spec fn view(&self) -> Map<Seq<char>, u64> {
        pairs_map(self.listing())
    }
}

impl FileHashes {
    /// No files.
    pub fn new() -> (c: FileHashes)
        ensures
            c@ == Map::<Seq<char>, u64>::empty(),
            c.listing().len() == 0,
    {
        let c = FileHashes { entries: Vec::new() };
        assert(c.listing() =~= Seq::<(Seq<char>, u64)>::empty());
        c
    }

    /// Records `hash` for `name`, in place of what it had.
    pub fn insert(&mut self, name: String, hash: u64)
        ensures
            final(self)@ == old(self)@.insert(name@, hash),
    {
        proof {
            use_type_invariant(&*self);
        }
        let ghost p = self.listing();
        let ghost x = (name@, hash);
        let mut entries: Vec<(String, u64)> = Vec::new();
        std::mem::swap(&mut entries, &mut self.entries);
        match find_name(&entries, &name) {
            Some(i) => {
                proof {
                    lemma_pairs_map_update(p, i as int, x);
                }
                entries.set(i, (name, hash));
                assert(entries@.map_values(|e: (String, u64)| (e.0@, e.1)) =~= p.update(i as int, x));
            },
            None => {
                proof {
                    lemma_pairs_map_absent(p, name@);
                }
                entries.push((name, hash));
                assert(entries@.map_values(|e: (String, u64)| (e.0@, e.1)) =~= p.push(x));
                assert(p.push(x).drop_last() =~= p);
            },
        }
        self.entries = entries;
    }

    /// The hash recorded for `name`.
    pub fn get(&self, name: &str) -> (r: Option<u64>)
        ensures
            r == (if self@.contains_key(name@) {
                Some(self@[name@])
            } else {
                None::<u64>
            }),
    {
        proof {
            use_type_invariant(self);
        }
        let ghost p = self.listing();
        match find_name(&self.entries, &name.to_owned()) {
            Some(i) => {
                proof {
                    lemma_pairs_map_lookup(p, i as int);
                }
                Some(self.entries[i].1)
            },
            None => {
                proof {
                    lemma_pairs_map_absent(p, name@);
                }
                None
            },
        }
    }

    /// The files and their hashes, each file once.
    pub fn to_vec(&self) -> (v: Vec<(String, u64)>)
        ensures
            v@.map_values(|e: (String, u64)| (e.0@, e.1)) == self.listing(),
            distinct_names(self.listing()),
    {
        proof {
            use_type_invariant(self);
        }
        let mut v: Vec<(String, u64)> = Vec::new();
        let mut i: usize = 0;
        while i < self.entries.len()
            invariant
                0 <= i <= self.entries@.len(),
                v@.map_values(|e: (String, u64)| (e.0@, e.1)) =~= self.listing().take(i as int),
            decreases self.entries@.len() - i,
        {
            let e = &self.entries[i];
            let ghost before = v@;
            v.push((e.0.clone(), e.1));
            assert(v@ =~= before.push((e.0, e.1)));
            assert(self.listing()[i as int] == (e.0@, e.1));
            assert(self.listing().take(i + 1) =~= self.listing().take(i as int).push((e.0@, e.1)));
            assert(v@.map_values(|e: (String, u64)| (e.0@, e.1)) =~= self.listing().take(i + 1));
            i += 1;
        }
        assert(self.listing().take(i as int) =~= self.listing());
        v
    }

    /// The number of files.
    pub fn len(&self) -> (n: usize)
        ensures
            n == self@.len(),
    {
        proof {
            use_type_invariant(self);
            lemma_pairs_map_len(self.listing());
        }
        self.entries.len()
    }

    /// The manifest text: one line per file, its hash as 21 zero-padded
    /// decimal digits, four spaces and its name, each line ending in a
    /// newline.
    pub fn to_manifest(&self) -> (s: String)
        ensures
            s@ == render_hashes(self.listing()),
            distinct_names(self.listing()),
    {
        proof {
            use_type_invariant(self);
        }
        let ghost p = self.listing();
        let ghost q = padded(p);
        let mut s = String::new();
        let mut i: usize = 0;
        assert(q.take(0) =~= Seq::<(Seq<char>, Seq<char>)>::empty());
        while i < self.entries.len()
            invariant
                p == self.listing(),
                q == padded(p),
                0 <= i <= self.entries@.len(),
                s@ == render(q.take(i as int)),
            decreases self.entries@.len() - i,
        {
            let e = &self.entries[i];
            assert(p[i as int] == (e.0@, e.1));
            let h = format_padded(e.1, 21);
            s.append(h.as_str());
            push_char(&mut s, ' ');
            push_char(&mut s, ' ');
            push_char(&mut s, ' ');
            push_char(&mut s, ' ');
            s.append(e.0.as_str());
            push_char(&mut s, '\n');
            assert(q.take(i + 1).drop_last() =~= q.take(i as int));
            assert(s@ =~= render(q.take(i + 1)));
            i += 1;
        }
        assert(q.take(i as int) =~= q);
        s
    }
}



/// An unreadable start makes the whole manifest unreadable.
proof fn lemma_hash_lines_prefix_none(l: Seq<Seq<char>>, k: int)
    requires
        0 <= k <= l.len(),
        hash_lines(l.take(k)) is None,
    ensures
        hash_lines(l) is None,
    decreases l.len() - k,
{
    if k < l.len() {
        assert(l.take(k + 1).drop_last() =~= l.take(k));
        lemma_hash_lines_prefix_none(l, k + 1);
    } else {
        assert(l.take(k) =~= l);
    }
}

/// Reads a manifest text (see [`hashes_of`]).
pub fn parse_contents(contents: &str) -> (r: Option<FileHashes>)
    ensures
        match r {
            Some(c) => hashes_of(contents@) == Some(c@),
            None => hashes_of(contents@) is None,
        },
{
    let lines = trimmed_lines(contents);
    let ghost ls = split_on(trim(contents@), '\n');
    let mut c = FileHashes::new();
    let mut k: usize = 0;
    assert(ls.take(0) =~= Seq::<Seq<char>>::empty());
    while k < lines.len()
        invariant
            ls == split_on(trim(contents@), '\n'),
            lines@.len() == ls.len(),
            forall|i: int| 0 <= i < ls.len() ==> (#[trigger] lines@[i])@ == ls[i],
            0 <= k <= lines@.len(),
            hash_lines(ls.take(k as int)) == Some(c@),
        decreases lines@.len() - k,
    {
        assert(ls.take(k + 1).drop_last() =~= ls.take(k as int));
        assert(ls.take(k + 1).last() == lines@[k as int]@);
        let parsed = match split_entry(lines[k].as_str()) {
            Some((hash, name)) => {
                let hv = chars_of(hash.as_str());
                assert(hv@.subrange(0, hv@.len() as int) =~= hash@);
                match parse_u64_span(&hv, 0, hv.len()) {
                    Some(h) => Some((name, h)),
                    None => None,
                }
            },
            None => None,
        };
        match parsed {
            Some((name, h)) => {
                c.insert(name, h);
            },
            None => {
                proof {
                    lemma_hash_lines_prefix_none(ls, k + 1);
                }
                return None;
            },
        }
        k += 1;
    }
    assert(ls.take(lines@.len() as int) =~= ls);
    Some(c)
}

/// The padded entries of names that a manifest line can carry are valid
/// manifest entries.
proof fn lemma_padded_valid(p: Seq<(Seq<char>, u64)>)
    requires
        forall|i: int| 0 <= i < p.len() ==> valid_name(#[trigger] p[i].0),
    ensures
        entries_valid(padded(p)),
{
    let q = padded(p);
    assert forall|i: int| 0 <= i < q.len() implies valid_digest(#[trigger] q[i].1) && valid_name(
        q[i].0,
    ) by {
        assert(q[i] == (p[i].0, zero_padded(p[i].1 as nat, hash_width())));
        assert(valid_name(p[i].0));
        let h = q[i].1;
        lemma_padded_digits(p[i].1 as nat, hash_width(), 0);
        assert forall|j: int| 0 <= j < h.len() implies !is_ws(#[trigger] h[j]) by {
            lemma_padded_digits(p[i].1 as nat, hash_width(), j);
        }
    }
}

/// Every character of a zero-padded number is a digit.
proof fn lemma_padded_digits(n: nat, width: nat, j: int)
    requires
        0 <= j < zero_padded(n, width).len(),
    ensures
        is_digit(zero_padded(n, width)[j]),
        zero_padded(n, width).len() > 0,
{
    crate::number::lemma_padded_all_digits(n, width);
}

/// The lines of padded entries read back as the entries' map.
proof fn lemma_hash_lines_of(p: Seq<(Seq<char>, u64)>)
    requires
        entries_valid(padded(p)),
    ensures
        hash_lines(padded(p).map_values(|e: (Seq<char>, Seq<char>)| entry_line(e))) == Some(
            pairs_map(p),
        ),
    decreases p.len(),
{
    let q = padded(p);
    let ls = q.map_values(|e: (Seq<char>, Seq<char>)| entry_line(e));
    if p.len() > 0 {
        lemma_entries_valid_drop_last(q);
        assert(q.drop_last() =~= padded(p.drop_last()));
        lemma_hash_lines_of(p.drop_last());
        assert(ls.drop_last() =~= padded(p.drop_last()).map_values(
            |e: (Seq<char>, Seq<char>)| entry_line(e),
        ));
        lemma_split_entry_line(q.last());
        assert(q.last() == (p.last().0, zero_padded(p.last().1 as nat, hash_width())));
        lemma_padded_parses(p.last().1, hash_width());
    } else {
        assert(ls =~= Seq::<Seq<char>>::empty());
    }
}

/// Manifest law of the plain server: a manifest written by
/// [`FileHashes::to_manifest`] reads back, through [`parse_contents`], as the
/// same map, whenever it has at least one entry and every name is non-empty,
/// holds no newline and does not end in white space. (The manifest of no
/// files is the empty text, which reads as no manifest at all.)
pub proof fn lemma_hashes_roundtrip(p: Seq<(Seq<char>, u64)>)
    requires
        p.len() > 0,
        forall|i: int| 0 <= i < p.len() ==> valid_name(#[trigger] p[i].0),
    ensures
        hashes_of(render_hashes(p)) == Some(pairs_map(p)),
{
    lemma_padded_valid(p);
    let q = padded(p);
    lemma_trim_render(q);
    lemma_split_joined(q);
    lemma_hash_lines_of(p);
}


/// The index of the first space byte of `s`.
pub open spec fn first_space(s: Seq<u8>) -> Option<int>
    decreases s.len(),
{
    if s.len() == 0 {
        None
    } else if s[0] == 32 {
        Some(0)
    } else {
        match first_space(s.drop_first()) {
            Some(i) => Some(i + 1),
            None => None,
        }
    }
}

/// The first space of `s`, and that there is none before it.
proof fn lemma_first_space(s: Seq<u8>)
    ensures
        first_space(s) matches Some(i) ==> 0 <= i < s.len() && s[i] == 32 && forall|j: int|
            0 <= j < i ==> s[j] != 32,
        first_space(s) is None ==> forall|j: int| 0 <= j < s.len() ==> s[j] != 32,
    decreases s.len(),
{
    if s.len() > 0 && s[0] != 32 {
        lemma_first_space(s.drop_first());
        assert forall|j: int| 0 < j < s.len() implies s[j] == s.drop_first()[j - 1] by {}
    }
}

/// The first space of `s` is at `i` when `s[i]` is a space and no byte
/// before it is.
proof fn lemma_first_space_at(s: Seq<u8>, i: int)
    requires
        0 <= i < s.len(),
        s[i] == 32,
        forall|j: int| 0 <= j < i ==> s[j] != 32,
    ensures
        first_space(s) == Some(i),
{
    lemma_first_space(s);
    match first_space(s) {
        Some(k) => {
            assert(!(k < i));
            assert(!(i < k));
        },
        None => {},
    }
}

/// `msg.splitn(3, |b| *b == b' ')`: the bytes before the first space, then
/// those up to the next space, then the rest.
pub open spec fn split3(msg: Seq<u8>) -> (Seq<u8>, Option<Seq<u8>>, Option<Seq<u8>>) {
    match first_space(msg) {
        None => (msg, None, None),
        Some(i) => {
            let rest = msg.skip(i + 1);
            match first_space(rest) {
                None => (msg.take(i), Some(rest), None),
                Some(j) => (msg.take(i), Some(rest.take(j)), Some(rest.skip(j + 1))),
            }
        },
    }
}

/// The bytes of an ASCII word.
pub open spec fn ascii_bytes(w: Seq<char>) -> Seq<u8> {
    w.map_values(|c: char| c as u8)
}

/// The command word `contents`.
pub open spec fn word_contents() -> Seq<char> {
    seq!['c', 'o', 'n', 't', 'e', 'n', 't', 's']
}

/// The command word `query`.
pub open spec fn word_query() -> Seq<char> {
    seq!['q', 'u', 'e', 'r', 'y']
}

/// The command word `get`.
pub open spec fn word_get() -> Seq<char> {
    seq!['g', 'e', 't']
}

/// The command word `put`.
pub open spec fn word_put() -> Seq<char> {
    seq!['p', 'u', 't']
}

/// The answer to `query` without a file name.
pub open spec fn query_usage() -> Seq<char> {
    "ERROR: try `query <filename>`"@
}

/// The answer to `get` without a file name.
pub open spec fn get_usage() -> Seq<char> {
    "ERROR: try `get <filename>`"@
}

/// The answer to `put` without a file name.
pub open spec fn put_usage() -> Seq<char> {
    "ERROR: try `put <filename> <body>`"@
}

/// The answer to `put` with a file name and no body.
pub open spec fn missing_body() -> Seq<char> {
    "ERROR: missing `body`"@
}

/// The answer to `put` with a body and no file name.
pub open spec fn missing_filename() -> Seq<char> {
    "ERROR: missing `filename`"@
}

/// The answer to any other message.
pub open spec fn command_usage() -> Seq<char> {
    "ERROR: try command contents|query|get|put"@
}

/// What the server does with one message.
#[derive(Debug, PartialEq, Eq)]
pub enum ServerStep {
    /// Answer with the manifest file's bytes.
    Contents,
    /// Answer with the file's modification time, in decimal seconds since the
    /// Unix epoch.
    Query(String),
    /// Answer with the file's bytes.
    Get(String),
    /// Store the body under the name and record its hash in the manifest
    /// (see [`record_put`]); no answer.
    Put { name: String, body: Vec<u8> },
    /// Answer with this text.
    Reply(String),
}

/// The meaning of a [`ServerStep`].
pub enum ServerStepView {
    Contents,
    Query(Seq<char>),
    Get(Seq<char>),
    Put { name: Seq<char>, body: Seq<u8> },
    Reply(Seq<char>),
}

impl View for ServerStep {
    type V = ServerStepView;

    open spec fn view(&self) -> ServerStepView {
        match self {
            ServerStep::Contents => ServerStepView::Contents,
            ServerStep::Query(f) => ServerStepView::Query(f@),
            ServerStep::Get(f) => ServerStepView::Get(f@),
            ServerStep::Put { name, body } => ServerStepView::Put { name: name@, body: body@ },
            ServerStep::Reply(m) => ServerStepView::Reply(m@),
        }
    }
}

/// What the server does with the message `msg`: the first word is the
/// command, the second the file name (read as UTF-8, invalid sequences
/// replaced), and the rest the body of a `put`.
pub open spec fn step_of(msg: Seq<u8>) -> ServerStepView {
    let (c, f, b) = split3(msg);
    if c == ascii_bytes(word_contents()) {
        ServerStepView::Contents
    } else if c == ascii_bytes(word_query()) {
        match f {
            Some(x) => ServerStepView::Query(lossy_text(x)),
            None => ServerStepView::Reply(query_usage()),
        }
    } else if c == ascii_bytes(word_get()) {
        match f {
            Some(x) => ServerStepView::Get(lossy_text(x)),
            None => ServerStepView::Reply(get_usage()),
        }
    } else if c == ascii_bytes(word_put()) {
        match (f, b) {
            (Some(x), Some(y)) => ServerStepView::Put { name: lossy_text(x), body: y },
            (Some(_), None) => ServerStepView::Reply(missing_body()),
            (None, Some(_)) => ServerStepView::Reply(missing_filename()),
            (None, None) => ServerStepView::Reply(put_usage()),
        }
    } else {
        ServerStepView::Reply(command_usage())
    }
}

/// Whether `a` holds exactly the bytes `lit`.
fn bytes_equal(a: &[u8], lit: &[u8]) -> (b: bool)
    ensures
        b == (a@ == lit@),
{
    if a.len() != lit.len() {
        return false;
    }
    let mut i: usize = 0;
    while i < lit.len()
        invariant
            a@.len() == lit@.len(),
            0 <= i <= lit@.len(),
            forall|j: int| 0 <= j < i ==> a@[j] == lit@[j],
        decreases lit@.len() - i,
    {
        if a[i] != lit[i] {
            return false;
        }
        i += 1;
    }
    assert(a@ =~= lit@);
    true
}

/// Where the first space of `s[from..]` is, as an index into `s`.
fn find_space(s: &[u8], from: usize) -> (r: Option<usize>)
    requires
        from <= s@.len(),
    ensures
        match r {
            Some(k) => from <= k < s@.len() && first_space(s@.skip(from as int)) == Some(k - from),
            None => first_space(s@.skip(from as int)) is None,
        },
{
    let ghost t = s@.skip(from as int);
    proof {
        lemma_first_space(t);
    }
    let mut i = from;
    while i < s.len()
        invariant
            from <= i <= s@.len(),
            t == s@.skip(from as int),
            forall|j: int| 0 <= j < i - from ==> t[j] != 32,
        decreases s@.len() - i,
    {
        if s[i] == 32 {
            proof {
                lemma_first_space_at(t, i - from);
            }
            return Some(i);
        }
        i += 1;
    }
    proof {
        match first_space(t) {
            Some(k) => {
                assert(t[k] != 32);
            },
            None => {},
        }
    }
    None
}

/// Decides what the server does with the message `msg`.
pub fn server_step(msg: &[u8]) -> (r: ServerStep)
    ensures
        r@ == step_of(msg@),
{
    let n = msg.len();
    let (c, f, b): (&[u8], Option<&[u8]>, Option<&[u8]>) = match find_space(msg, 0) {
        None => {
            assert(msg@.skip(0) =~= msg@);
            (msg, None, None)
        },
        Some(i) => {
            assert(msg@.skip(0) =~= msg@);
            let c = vstd::slice::slice_subrange(msg, 0, i);
            match find_space(msg, i + 1) {
                None => (c, Some(vstd::slice::slice_subrange(msg, i + 1, n)), None),
                Some(j) => {
                    assert(msg@.skip(i + 1).take(j - (i + 1)) =~= msg@.subrange(
                        i + 1,
                        j as int,
                    ));
                    assert(msg@.skip(i + 1).skip(j - (i + 1) + 1) =~= msg@.subrange(
                        j + 1,
                        n as int,
                    ));
                    (
                        c,
                        Some(vstd::slice::slice_subrange(msg, i + 1, j)),
                        Some(vstd::slice::slice_subrange(msg, j + 1, n)),
                    )
                },
            }
        },
    };
    assert(split3(msg@) == (c@, match f {
        Some(x) => Some(x@),
        None => None::<Seq<u8>>,
    }, match b {
        Some(x) => Some(x@),
        None => None::<Seq<u8>>,
    }));
    let w_contents: [u8; 8] = [99, 111, 110, 116, 101, 110, 116, 115];
    let w_query: [u8; 5] = [113, 117, 101, 114, 121];
    let w_get: [u8; 3] = [103, 101, 116];
    let w_put: [u8; 3] = [112, 117, 116];
    assert(w_contents@ =~= ascii_bytes(word_contents()));
    assert(w_query@ =~= ascii_bytes(word_query()));
    assert(w_get@ =~= ascii_bytes(word_get()));
    assert(w_put@ =~= ascii_bytes(word_put()));
    if bytes_equal(c, &w_contents) {
        ServerStep::Contents
    } else if bytes_equal(c, &w_query) {
        match f {
            Some(x) => ServerStep::Query(from_utf8_lossy(x)),
            None => ServerStep::Reply("ERROR: try `query <filename>`".to_owned()),
        }
    } else if bytes_equal(c, &w_get) {
        match f {
            Some(x) => ServerStep::Get(from_utf8_lossy(x)),
            None => ServerStep::Reply("ERROR: try `get <filename>`".to_owned()),
        }
    } else if bytes_equal(c, &w_put) {
        match (f, b) {
            (Some(x), Some(y)) => ServerStep::Put {
                name: from_utf8_lossy(x),
                body: vstd::slice::slice_to_vec(y),
            },
            (Some(_), None) => ServerStep::Reply("ERROR: missing `body`".to_owned()),
            (None, Some(_)) => ServerStep::Reply("ERROR: missing `filename`".to_owned()),
            (None, None) => ServerStep::Reply("ERROR: try `put <filename> <body>`".to_owned()),
        }
    } else {
        ServerStep::Reply("ERROR: try command contents|query|get|put".to_owned())
    }
}


/// The client's `contents` message.
pub open spec fn contents_message() -> Seq<u8> {
    ascii_bytes(word_contents())
}

/// The client's `query` message for the file `name`.
pub open spec fn query_message(name: Seq<char>) -> Seq<u8> {
    ascii_bytes(word_query()) + seq![32u8] + encode_utf8(name)
}

/// The client's `get` message for the file `name`.
pub open spec fn get_message(name: Seq<char>) -> Seq<u8> {
    ascii_bytes(word_get()) + seq![32u8] + encode_utf8(name)
}

/// The client's `put` message for the file `name` with the bytes `text`.
pub open spec fn put_message(name: Seq<char>, text: Seq<u8>) -> Seq<u8> {
    ascii_bytes(word_put()) + seq![32u8] + encode_utf8(name) + seq![32u8] + text
}

fn push_all(v: &mut Vec<u8>, s: &[u8])
    ensures
        final(v)@ == old(v)@ + s@,
{
    let mut i: usize = 0;
    while i < s.len()
        invariant
            0 <= i <= s@.len(),
            v@ == old(v)@ + s@.take(i as int),
        decreases s@.len() - i,
    {
        v.push(s[i]);
        assert(s@.take(i + 1) =~= s@.take(i as int).push(s@[i as int]));
        i += 1;
    }
    assert(s@.take(s@.len() as int) =~= s@);
}

/// The message that asks the server for its manifest.
pub fn contents_command() -> (m: Vec<u8>)
    ensures
        m@ == contents_message(),
{
    let w: [u8; 8] = [99, 111, 110, 116, 101, 110, 116, 115];
    assert(w@ =~= ascii_bytes(word_contents()));
    vstd::slice::slice_to_vec(&w)
}

/// The message that asks the server when it last modified `name`.
pub fn query_command(name: &str) -> (m: Vec<u8>)
    ensures
        m@ == query_message(name@),
{
    let w: [u8; 6] = [113, 117, 101, 114, 121, 32];
    assert(w@ =~= ascii_bytes(word_query()) + seq![32u8]);
    let mut m = vstd::slice::slice_to_vec(&w);
    push_all(&mut m, name.as_bytes());
    m
}

/// The message that asks the server for the bytes of `name`.
pub fn get_command(name: &str) -> (m: Vec<u8>)
    ensures
        m@ == get_message(name@),
{
    let w: [u8; 4] = [103, 101, 116, 32];
    assert(w@ =~= ascii_bytes(word_get()) + seq![32u8]);
    let mut m = vstd::slice::slice_to_vec(&w);
    push_all(&mut m, name.as_bytes());
    m
}

/// The message that sends the server the bytes `text` of `name`.
pub fn put_command(name: &str, text: &[u8]) -> (m: Vec<u8>)
    ensures
        m@ == put_message(name@, text@),
{
    let w: [u8; 4] = [112, 117, 116, 32];
    assert(w@ =~= ascii_bytes(word_put()) + seq![32u8]);
    let mut m = vstd::slice::slice_to_vec(&w);
    push_all(&mut m, name.as_bytes());
    m.push(32u8);
    push_all(&mut m, text);
    m
}

/// Protocol law: the server reads each message of the client as the client
/// means it. A `query`, `get` or `put` for a file whose name holds no space
/// names that file, and a `put` carries its bytes whole, spaces included.
pub proof fn lemma_server_reads_client(name: Seq<char>, text: Seq<u8>)
    requires
        !name.contains(' '),
    ensures
        step_of(contents_message()) == ServerStepView::Contents,
        step_of(query_message(name)) == ServerStepView::Query(name),
        step_of(get_message(name)) == ServerStepView::Get(name),
        step_of(put_message(name, text)) == (ServerStepView::Put { name, body: text }),
{
    let e = encode_utf8(name);
    assert forall|i: int| 0 <= i < name.len() implies name[i] as u32 != 32u8 as u32 by {
        if name[i] as u32 == 32u32 {
            char_u32_cast(name[i], 32u32);
            char_u32_cast(' ', 32u32);
            assert(name.contains(' '));
        }
    }
    lemma_encode_avoids_ascii(name, 32u8);
    lemma_first_space(e);
    assert(first_space(e) is None) by {
        match first_space(e) {
            Some(k) => {
                assert(e[k] != 32);
            },
            None => {},
        }
    }
    encode_utf8_valid_utf8(name);
    encode_utf8_decode_utf8(name);
    let c = ascii_bytes(word_contents());
    lemma_first_space(c);
    assert(first_space(c) is None) by {
        match first_space(c) {
            Some(k) => {
                assert(c[k] != 32);
            },
            None => {},
        }
    }
    let wq = ascii_bytes(word_query());
    let q = query_message(name);
    lemma_first_space_at(q, wq.len() as int);
    assert(q.take(wq.len() as int) =~= wq);
    assert(q.skip(wq.len() as int + 1) =~= e);
    let wg = ascii_bytes(word_get());
    let g = get_message(name);
    lemma_first_space_at(g, wg.len() as int);
    assert(g.take(wg.len() as int) =~= wg);
    assert(g.skip(wg.len() as int + 1) =~= e);
    let wp = ascii_bytes(word_put());
    let p = put_message(name, text);
    lemma_first_space_at(p, wp.len() as int);
    assert(p.take(wp.len() as int) =~= wp);
    let rest = p.skip(wp.len() as int + 1);
    assert(rest =~= e + seq![32u8] + text);
    assert forall|j: int| 0 <= j < e.len() implies rest[j] != 32 by {
        assert(rest[j] == e[j]);
    }
    lemma_first_space_at(rest, e.len() as int);
    assert(rest.take(e.len() as int) =~= e);
    assert(rest.skip(e.len() as int + 1) =~= text);
}

/// How a file of the client compares with the server's manifest.
#[derive(Debug, PartialEq, Eq)]
pub enum FileAction {
    /// The server has the file with the same hash: nothing to do.
    Same,
    /// The server has the file with another hash: ask when it was modified.
    Differs,
    /// The server does not have the file: send it.
    Missing,
}

/// Which copy of a file that differs wins.
#[derive(Debug, PartialEq, Eq)]
pub enum Direction {
    /// The client's copy is newer: send it.
    Push,
    /// The server's copy is not older: fetch it.
    Pull,
}

/// Compares the client's file `name`, of hash `cli_hash`, with the server's
/// manifest `server`.
pub fn plan_file(server: &FileHashes, name: &str, cli_hash: u64) -> (a: FileAction)
    ensures
        a == (if !server@.contains_key(name@) {
            FileAction::Missing
        } else if server@[name@] == cli_hash {
            FileAction::Same
        } else {
            FileAction::Differs
        }),
{
    match server.get(name) {
        Some(h) => if h == cli_hash {
            FileAction::Same
        } else {
            FileAction::Differs
        },
        None => FileAction::Missing,
    }
}

/// The server's answer `reply` to a `query`, read as a decimal `u64`.
pub fn server_time(reply: &[u8]) -> (r: Option<u64>)
    ensures
        r == parse_u64_spec(lossy_text(reply@)),
{
    let s = from_utf8_lossy(reply);
    let v = chars_of(s.as_str());
    assert(v@.subrange(0, v@.len() as int) =~= v@);
    parse_u64_span(&v, 0, v.len())
}

/// Which copy of a differing file wins, from the modification times of the
/// client's copy, `cli_ts`, and of the server's, `srv_ts`.
pub fn newer_side(cli_ts: u64, srv_ts: u64) -> (d: Direction)
    ensures
        d == (if cli_ts > srv_ts {
            Direction::Push
        } else {
            Direction::Pull
        }),
{
    if cli_ts > srv_ts {
        Direction::Push
    } else {
        Direction::Pull
    }
}

/// Reads the server's answer `reply` to `contents` as a manifest.
pub fn read_server_contents(reply: &[u8]) -> (r: Option<FileHashes>)
    ensures
        match r {
            Some(c) => hashes_of(lossy_text(reply@)) == Some(c@),
            None => hashes_of(lossy_text(reply@)) is None,
        },
{
    let s = from_utf8_lossy(reply);
    parse_contents(s.as_str())
}

/// `<[u8] as Hash>::hash`: feeds `text` to the hasher `state`. std documents
/// that the slice's hash first writes a length prefix
/// (`Hasher::write_length_prefix`, one `write_usize`, which `DefaultHasher`
/// leaves to its default of one `write`), then its elements. Claimed: the
/// hasher's record of writes gains some prefix and then writes whose bytes,
/// joined, are exactly `text`. The prefix's bytes (the length in the
/// machine's byte order and width) and how the bytes are cut into writes are
/// left unsaid.
#[verifier::external_body]
fn hash_slice_into(text: &[u8], state: &mut DefaultHasher)
    ensures
        final(state)@.len() > old(state)@.len(),
        final(state)@.take(old(state)@.len() as int) == old(state)@,
        final(state)@.skip(old(state)@.len() as int + 1).flatten() == text@,
{
    text.hash(state)
}

/// `h` is what a fresh `DefaultHasher` finishes with after a length prefix
/// and then writes that together hold exactly the bytes `text`.
pub open spec fn finishes_over(h: u64, text: Seq<u8>) -> bool {
    exists|pre: Seq<u8>, w: Seq<Seq<u8>>|
        w.flatten() == text && h == DefaultHasher::spec_finish(seq![pre] + w)
}

/// The hash that the server records for a file with the bytes `text`: `text`
/// hashed into a fresh `DefaultHasher`. The hash is `DefaultHasher`'s finish
/// of a length prefix followed by writes that together hold all of `text`,
/// so it is a function of every byte of `text`; the value itself is left to
/// std, which does not fix the algorithm, and differs between machines.
pub fn hash_bytes(text: &[u8]) -> (h: u64)
    ensures
        finishes_over(h, text@),
{
    let mut s = DefaultHasher::new();
    hash_slice_into(text, &mut s);
    assert(s@ =~= seq![s@[0]] + s@.skip(1));
    s.finish()
}

/// A name that the manifest leaves out: one that starts with `.`.
pub open spec fn hidden(name: Seq<char>) -> bool {
    name.len() > 0 && name[0] == '.'
}

/// Whether the manifest lists a file named `name`.
pub fn listed(name: &str) -> (b: bool)
    ensures
        b == !hidden(name@),
        b <==> !(name@.len() > 0 && name@[0] == '.'),
{
    let v = chars_of(name);
    !(v.len() > 0 && v[0] == '.')
}

/// Each file of `files` (name and bytes) with the hash of its bytes (see
/// [`hash_bytes`]), in the same order.
pub fn hash_files(files: &Vec<(String, Vec<u8>)>) -> (r: Vec<(String, u64)>)
    ensures
        r@.len() == files@.len(),
        forall|i: int| 0 <= i < files@.len() ==> (#[trigger] r@[i]).0@ == files@[i].0@,
        forall|i: int| 0 <= i < files@.len() ==> finishes_over((#[trigger] r@[i]).1, files@[i].1@),
{
    let mut r: Vec<(String, u64)> = Vec::new();
    let mut i: usize = 0;
    while i < files.len()
        invariant
            0 <= i <= files@.len(),
            r@.len() == i,
            forall|j: int| 0 <= j < i ==> (#[trigger] r@[j]).0@ == files@[j].0@,
            forall|j: int| 0 <= j < i ==> finishes_over((#[trigger] r@[j]).1, files@[j].1@),
        decreases files@.len() - i,
    {
        let h = hash_bytes(files[i].1.as_slice());
        r.push((files[i].0.clone(), h));
        i += 1;
    }
    r
}

/// What the manifest holds of the files `files` (name and hash of each
/// regular file of the directory): each listed name with its hash, a later
/// pair for a name taking the place of an earlier one.
pub open spec fn listed_map(files: Seq<(String, u64)>) -> Map<Seq<char>, u64>
    decreases files.len(),
{
    if files.len() == 0 {
        Map::empty()
    } else {
        let m = listed_map(files.drop_last());
        if hidden(files.last().0@) {
            m
        } else {
            m.insert(files.last().0@, files.last().1)
        }
    }
}

/// The hashes of the files `files` (name and hash of each regular file of
/// the directory), leaving out those whose name starts with `.`.
pub fn local_contents(files: &Vec<(String, u64)>) -> (c: FileHashes)
    ensures
        c@ == listed_map(files@),
{
    let mut c = FileHashes::new();
    let mut i: usize = 0;
    while i < files.len()
        invariant
            0 <= i <= files@.len(),
            c@ == listed_map(files@.take(i as int)),
        decreases files@.len() - i,
    {
        assert(files@.take(i + 1).drop_last() =~= files@.take(i as int));
        assert(files@.take(i + 1).last() == files@[i as int]);
        if listed(files[i].0.as_str()) {
            c.insert(files[i].0.clone(), files[i].1);
        }
        i += 1;
    }
    assert(files@.take(files@.len() as int) =~= files@);
    c
}

/// The manifest after a `put` under `name` of a body whose hash is
/// `body_hash`, given the files of the directory before it, `files` (name and
/// hash of each): each listed file with its hash and `name` with
/// `body_hash`, each name listed once in some order.
pub fn record_put(files: &Vec<(String, u64)>, name: String, body_hash: u64) -> (m: String)
    ensures
        exists|p: Seq<(Seq<char>, u64)>|
            distinct_names(p) && m@ == render_hashes(p) && pairs_map(p) == listed_map(
                files@,
            ).insert(name@, body_hash),
        (forall|n: Seq<char>| #[trigger] listed_map(files@).insert(name@, body_hash).contains_key(n) ==> valid_name(n))
            ==> hashes_of(m@) == Some(listed_map(files@).insert(name@, body_hash)),
{
    let mut c = local_contents(files);
    c.insert(name, body_hash);
    let m = c.to_manifest();
    proof {
        let p = c.listing();
        let mm = listed_map(files@).insert(name@, body_hash);
        assert(pairs_map(p) == mm);
        if forall|n: Seq<char>| #[trigger] mm.contains_key(n) ==> valid_name(n) {
            assert forall|i: int| 0 <= i < p.len() implies valid_name(#[trigger] p[i].0) by {
                lemma_pairs_map_lookup(p, i);
            }
            if p.len() == 0 {
                assert(!pairs_map(p).contains_key(name@));
            }
            lemma_hashes_roundtrip(p);
        }
    }
    m
}

/// Listing law: the manifest of the files `files` (name and hash of each)
/// has an entry for `n` exactly when some file is named `n` and `n` does not
/// start with `.`; the entry is the hash of the last file named `n`.
pub proof fn lemma_listed_map_entries(files: Seq<(String, u64)>, n: Seq<char>)
    ensures
        listed_map(files).contains_key(n) <==> (!(n.len() > 0 && n[0] == '.') && exists|i: int|
            0 <= i < files.len() && (#[trigger] files[i]).0@ == n),
        listed_map(files).contains_key(n) ==> exists|i: int|
            0 <= i < files.len() && (#[trigger] files[i]).0@ == n && listed_map(files)[n] == files[i].1
                && forall|j: int| i < j < files.len() ==> (#[trigger] files[j]).0@ != n,
    decreases files.len(),
{
    if files.len() > 0 {
        let p = files.drop_last();
        let k = files.len() - 1;
        lemma_listed_map_entries(p, n);
        assert(files[k] == files.last());
        assert forall|i: int| 0 <= i < p.len() implies #[trigger] p[i] == files[i] by {}
        if files.last().0@ == n {
            if !hidden(n) {
                assert(listed_map(files)[n] == files[k].1);
                assert(forall|j: int| k < j < files.len() ==> (#[trigger] files[j]).0@ != n);
            }
        } else {
            if listed_map(files).contains_key(n) {
                let i = choose|i: int|
                    0 <= i < p.len() && (#[trigger] p[i]).0@ == n && listed_map(p)[n] == p[i].1
                        && forall|j: int| i < j < p.len() ==> (#[trigger] p[j]).0@ != n;
                assert(files[i] == p[i]);
                assert forall|j: int| i < j < files.len() implies (#[trigger] files[j]).0@ != n by {
                    if j < k {
                        assert(files[j] == p[j]);
                    }
                }
            }
            if exists|i: int| 0 <= i < files.len() && (#[trigger] files[i]).0@ == n {
                let i = choose|i: int| 0 <= i < files.len() && (#[trigger] files[i]).0@ == n;
                assert(p[i] == files[i]);
            }
        }
    }
}

} // verus!
