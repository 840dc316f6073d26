//! The line-protocol client's view of the files: its own files with the MD5
//! digests of their bytes, and the server's manifest.

use vstd::prelude::*;
use crate::proto::service::{Contents, md5_compute, md5_digest, hex_lower, to_hex, digest_text, lemma_hex_lower_injective, valid_digest, valid_name, entries_valid, entry_line, render, pairs_map, lemma_trim_render, lemma_split_joined, lemma_split_entry_line};
use vstd::utf8::*;
use crate::sync::{hidden, listed};
use crate::text::{trim, split_on, split_at_sep, trimmed_lines, split_entry};

verus! {

broadcast use vstd::string::group_string_axioms;

/// The map that the manifest lines `lines` describe: every line must hold
/// four spaces, mapping the name after them to the digest before them; any
/// other line, an empty one too, makes the manifest unreadable.
pub open spec fn digest_lines(lines: Seq<Seq<char>>) -> Option<Map<Seq<char>, Seq<char>>>
    decreases lines.len(),
{
    if lines.len() == 0 {
        Some(Map::empty())
    } else {
        match digest_lines(lines.drop_last()) {
            None => None,
            Some(m) => match split_at_sep(lines.last()) {
                Some((h, n)) => Some(m.insert(n, h)),
                None => None,
            },
        }
    }
}

/// The map that the manifest text `s` holds: its lines after trimming.
pub open spec fn digests_of(s: Seq<char>) -> Option<Map<Seq<char>, Seq<char>>> {
    digest_lines(split_on(trim(s), '\n'))
}

proof fn lemma_digest_lines_prefix_none(l: Seq<Seq<char>>, k: int)
    requires
        0 <= k <= l.len(),
        digest_lines(l.take(k)) is None,
    ensures
        digest_lines(l) is None,
    decreases l.len() - k,
{
    if k < l.len() {
        assert(l.take(k + 1).drop_last() =~= l.take(k));
        lemma_digest_lines_prefix_none(l, k + 1);
    } else {
        assert(l.take(k) =~= l);
    }
}

/// Reads the server's manifest text (see [`digests_of`]).
pub fn parse_contents(contents: &str) -> (r: Option<Contents>)
    ensures
        match r {
            Some(c) => digests_of(contents@) == Some(c@),
            None => digests_of(contents@) is None,
        },
{
    let lines = trimmed_lines(contents);
    let ghost ls = split_on(trim(contents@), '\n');
    let mut c = Contents::new();
    let mut k: usize = 0;
    assert(ls.take(0) =~= Seq::<Seq<char>>::empty());
    while k < lines.len()
        invariant
            ls == split_on(trim(contents@), '\n'),
            lines@.len() == ls.len(),
            forall|i: int| 0 <= i < ls.len() ==> (#[trigger] lines@[i])@ == ls[i],
            0 <= k <= lines@.len(),
            digest_lines(ls.take(k as int)) == Some(c@),
        decreases lines@.len() - k,
    {
        assert(ls.take(k + 1).drop_last() =~= ls.take(k as int));
        assert(ls.take(k + 1).last() == lines@[k as int]@);
        match split_entry(lines[k].as_str()) {
            Some((hash, name)) => {
                c.set_entry(name, hash);
            },
            None => {
                proof {
                    lemma_digest_lines_prefix_none(ls, k + 1);
                }
                return None;
            },
        }
        k += 1;
    }
    assert(ls.take(lines@.len() as int) =~= ls);
    Some(c)
}

/// The digest text of a file with the bytes `bytes`: their MD5 digest in
/// lower-case hexadecimal, as the server's manifest records it of a file's
/// text.
pub open spec fn bytes_digest(bytes: Seq<u8>) -> Seq<char> {
    hex_lower(md5_digest(bytes))
}

/// What the client holds of its files `files` (name and bytes of each): each
/// name that does not start with `.` with the digest of its bytes, a later
/// pair for a name taking the place of an earlier one.
pub open spec fn file_digests(files: Seq<(String, Vec<u8>)>) -> Map<Seq<char>, Seq<char>>
    decreases files.len(),
{
    if files.len() == 0 {
        Map::empty()
    } else {
        let m = file_digests(files.drop_last());
        if hidden(files.last().0@) {
            m
        } else {
            m.insert(files.last().0@, bytes_digest(files.last().1@))
        }
    }
}

/// The client's own files `files` (name and bytes of each), each with the MD5
/// digest of its bytes; names that start with `.` are left out.
pub fn local_contents(files: &Vec<(String, Vec<u8>)>) -> (c: Contents)
    ensures
        c@ == file_digests(files@),
{
    let mut c = Contents::new();
    let mut i: usize = 0;
    while i < files.len()
        invariant
            0 <= i <= files@.len(),
            c@ == file_digests(files@.take(i as int)),
        decreases files@.len() - i,
    {
        assert(files@.take(i + 1).drop_last() =~= files@.take(i as int));
        assert(files@.take(i + 1).last() == files@[i as int]);
        if listed(files[i].0.as_str()) {
            let d = md5_compute(files[i].1.as_slice());
            c.set_entry(files[i].0.clone(), to_hex(&d));
        }
        i += 1;
    }
    assert(files@.take(files@.len() as int) =~= files@);
    c
}

/// A client file whose bytes are the UTF-8 encoding of the text `t` gets the
/// digest that the server's manifest records for a file with the text `t`, so
/// the two sides compare equal digests for equal files.
pub proof fn lemma_client_digest_matches_server(t: Seq<char>)
    ensures
        bytes_digest(encode_utf8(t)) == digest_text(t),
{
}

/// Two files get the same digest exactly when MD5 gives the same digest of
/// all their bytes.
pub proof fn lemma_bytes_digest_covers_all_bytes(b1: Seq<u8>, b2: Seq<u8>)
    ensures
        bytes_digest(b1) == bytes_digest(b2) <==> md5_digest(b1) == md5_digest(b2),
{
    lemma_hex_lower_injective(md5_digest(b1), md5_digest(b2));
}

/// Entry lines with valid digests read back as the entries' map.
proof fn lemma_digest_lines_of(p: Seq<(Seq<char>, Seq<char>)>)
    requires
        forall|i: int| 0 <= i < p.len() ==> valid_digest(#[trigger] p[i].1),
    ensures
        digest_lines(p.map_values(|e: (Seq<char>, Seq<char>)| entry_line(e))) == Some(
            pairs_map(p),
        ),
    decreases p.len(),
{
    let ls = p.map_values(|e: (Seq<char>, Seq<char>)| entry_line(e));
    if p.len() > 0 {
        assert forall|i: int| 0 <= i < p.drop_last().len() implies valid_digest(
            #[trigger] p.drop_last()[i].1,
        ) by {
            assert(p.drop_last()[i] == p[i]);
        }
        lemma_digest_lines_of(p.drop_last());
        assert(ls.drop_last() =~= p.drop_last().map_values(
            |e: (Seq<char>, Seq<char>)| entry_line(e),
        ));
        assert(valid_digest(p[p.len() - 1].1));
        lemma_split_entry_line(p.last());
    }
}

/// Client manifest law: a non-empty manifest, as the server writes it, reads
/// back on the client as the same map of names to the whole digest texts,
/// whenever every digest is non-empty without white space and every name is
/// non-empty, holds no newline and does not end in white space.
pub proof fn lemma_client_manifest_roundtrip(p: Seq<(Seq<char>, Seq<char>)>)
    requires
        entries_valid(p),
        p.len() > 0,
    ensures
        digests_of(render(p)) == Some(pairs_map(p)),
{
    lemma_trim_render(p);
    lemma_split_joined(p);
    lemma_digest_lines_of(p);
}

/// A manifest of one line, the digest text `h`, four spaces and the name
/// `n`, maps `n` to all of `h`.
pub proof fn lemma_client_reads_line(h: Seq<char>, n: Seq<char>)
    requires
        valid_digest(h),
        valid_name(n),
    ensures
        digests_of(h + seq![' ', ' ', ' ', ' '] + n + seq!['\n']) == Some(
            Map::<Seq<char>, Seq<char>>::empty().insert(n, h),
        ),
{
    let p = seq![(n, h)];
    let e = Seq::<(Seq<char>, Seq<char>)>::empty();
    assert(p.drop_last() =~= e);
    assert(p.last() == (n, h));
    assert(render(e) == Seq::<char>::empty());
    assert(pairs_map(e) == Map::<Seq<char>, Seq<char>>::empty());
    assert(render(p) == render(e) + entry_line((n, h)) + seq!['\n']);
    assert(pairs_map(p) == pairs_map(e).insert(n, h));
    assert(render(p) =~= h + seq![' ', ' ', ' ', ' '] + n + seq!['\n']);
    assert(pairs_map(p) == Map::<Seq<char>, Seq<char>>::empty().insert(n, h));
    lemma_client_manifest_roundtrip(p);
}

/// The client's map of its files `files` (name and bytes of each) has an
/// entry for `n` exactly when some file is named `n` and `n` does not start
/// with `.`; the entry is the MD5 digest, in lower-case hexadecimal, of all
/// the bytes of the last file named `n`.
pub proof fn lemma_file_digests_entries(files: Seq<(String, Vec<u8>)>, n: Seq<char>)
    ensures
        file_digests(files).contains_key(n) <==> (!(n.len() > 0 && n[0] == '.') && exists|i: int|
            0 <= i < files.len() && (#[trigger] files[i]).0@ == n),
        file_digests(files).contains_key(n) ==> exists|i: int|
            0 <= i < files.len() && (#[trigger] files[i]).0@ == n && file_digests(files)[n]
                == hex_lower(md5_digest(files[i].1@)) && forall|j: int|
                i < j < files.len() ==> (#[trigger] files[j]).0@ != n,
    decreases files.len(),
{
    if files.len() > 0 {
        let p = files.drop_last();
        let k = files.len() - 1;
        lemma_file_digests_entries(p, n);
        assert(files[k] == files.last());
        assert forall|i: int| 0 <= i < p.len() implies #[trigger] p[i] == files[i] by {}
        if files.last().0@ == n {
            if !hidden(n) {
                assert(file_digests(files)[n] == hex_lower(md5_digest(files[k].1@)));
                assert(forall|j: int| k < j < files.len() ==> (#[trigger] files[j]).0@ != n);
            }
        } else {
            if file_digests(files).contains_key(n) {
                let i = choose|i: int|
                    0 <= i < p.len() && (#[trigger] p[i]).0@ == n && file_digests(p)[n]
                        == hex_lower(md5_digest(p[i].1@)) && forall|j: int|
                        i < j < p.len() ==> (#[trigger] p[j]).0@ != n;
                assert(files[i] == p[i]);
                assert forall|j: int| i < j < files.len() implies (#[trigger] files[j]).0@ != n by {
                    if j < k {
                        assert(files[j] == p[j]);
                    }
                }
            }
            if exists|i: int| 0 <= i < files.len() && (#[trigger] files[i]).0@ == n {
                let i = choose|i: int| 0 <= i < files.len() && (#[trigger] files[i]).0@ == n;
                assert(p[i] == files[i]);
            }
        }
    }
}

} // verus!
