//! Requests of the line protocol.

use vstd::prelude::*;
use crate::text::{chars_of, span_equals, string_of, word_spans, words, spans_view, is_ws};

verus! {

/// A request, as the server reads it from one line.
#[derive(Debug, PartialEq, Eq)]
pub enum Request {
    /// `contents`: the manifest of the server's files.
    Contents,
    /// `query <file>`: the time of the file's last modification.
    Query(String),
    /// `get <file>`: the file's text, in base64.
    Get(String),
    /// `put <file> <base64>`: store the decoded text under the file's name.
    Put { file: String, text: String },
    /// Anything else.
    Invalid,
}

/// The meaning of a [`Request`]: its strings taken as character sequences.
pub enum RequestView {
    Contents,
    Query(Seq<char>),
    Get(Seq<char>),
    Put { file: Seq<char>, text: Seq<char> },
    Invalid,
}

impl View for Request {
    type V = RequestView;

    open spec fn view(&self) -> RequestView {
        match self {
            Request::Contents => RequestView::Contents,
            Request::Query(f) => RequestView::Query(f@),
            Request::Get(f) => RequestView::Get(f@),
            Request::Put { file, text } => RequestView::Put { file: file@, text: text@ },
            Request::Invalid => RequestView::Invalid,
        }
    }
}

/// The request that a line with the characters `s` carries. Only the first
/// three white-space separated words count: a request is its command word and
/// exactly the arguments it takes, except that `put` ignores words after its
/// second argument.
pub open spec fn request_of(s: Seq<char>) -> RequestView {
    let w = words(s);
    if w.len() == 1 && w[0] == seq!['c', 'o', 'n', 't', 'e', 'n', 't', 's'] {
        RequestView::Contents
    } else if w.len() == 2 && w[0] == seq!['q', 'u', 'e', 'r', 'y'] {
        RequestView::Query(w[1])
    } else if w.len() == 2 && w[0] == seq!['g', 'e', 't'] {
        RequestView::Get(w[1])
    } else if w.len() >= 3 && w[0] == seq!['p', 'u', 't'] {
        RequestView::Put { file: w[1], text: w[2] }
    } else {
        RequestView::Invalid
    }
}

impl Request {
    /// Reads a request from one line of text.
    pub fn parse(s: &str) -> (r: Request)
        ensures
            r@ == request_of(s@),
    {
        let v = chars_of(s);
        let sp = word_spans(&v, 0, v.len());
        let ghost w = words(s@);
        proof {
            assert(v@.subrange(0, v@.len() as int) =~= v@);
            assert(spans_view(v@, sp@) == w);
            assert(forall|k: int| 0 <= k < sp@.len() ==> #[trigger] w[k] == v@.subrange(
                sp@[k].0 as int,
                sp@[k].1 as int,
            ));
        }
        let n = sp.len();
        if n == 0 {
            return Request::Invalid;
        }
        let (a, b) = sp[0];
        let lit_contents: [char; 8] = ['c', 'o', 'n', 't', 'e', 'n', 't', 's'];
        let lit_query: [char; 5] = ['q', 'u', 'e', 'r', 'y'];
        let lit_get: [char; 3] = ['g', 'e', 't'];
        let lit_put: [char; 3] = ['p', 'u', 't'];
        assert(lit_contents@ == seq!['c', 'o', 'n', 't', 'e', 'n', 't', 's']);
        assert(lit_query@ == seq!['q', 'u', 'e', 'r', 'y']);
        assert(lit_get@ == seq!['g', 'e', 't']);
        assert(lit_put@ == seq!['p', 'u', 't']);
        if n == 1 && span_equals(&v, a, b, &lit_contents) {
            Request::Contents
        } else if n == 2 && span_equals(&v, a, b, &lit_query) {
            Request::Query(string_of(&v, sp[1].0, sp[1].1))
        } else if n == 2 && span_equals(&v, a, b, &lit_get) {
            Request::Get(string_of(&v, sp[1].0, sp[1].1))
        } else if n >= 3 && span_equals(&v, a, b, &lit_put) {
            Request::Put {
                file: string_of(&v, sp[1].0, sp[1].1),
                text: string_of(&v, sp[2].0, sp[2].1),
            }
        } else {
            Request::Invalid
        }
    }
}

/// A word: non-empty, without white space.
pub open spec fn is_word(w: Seq<char>) -> bool {
    w.len() > 0 && forall|i: int| 0 <= i < w.len() ==> !is_ws(#[trigger] w[i])
}

/// A word alone is its only word.
proof fn lemma_words_single(x: Seq<char>)
    requires
        is_word(x),
    ensures
        words(x) == seq![x],
    decreases x.len(),
{
    let c = x.last();
    assert(!is_ws(x[x.len() - 1]));
    if x.len() == 1 {
        assert(x.drop_last() =~= Seq::<char>::empty());
        assert(words(x.drop_last()) == Seq::<Seq<char>>::empty());
        assert(seq![c] =~= x);
        assert(Seq::<Seq<char>>::empty().push(seq![c]) =~= seq![x]);
        assert(words(x) == words(x.drop_last()).push(seq![c]));
    } else {
        let y = x.drop_last();
        assert forall|i: int| 0 <= i < y.len() implies !is_ws(#[trigger] y[i]) by {
            assert(y[i] == x[i]);
        }
        lemma_words_single(y);
        assert(!is_ws(x[x.len() - 2]));
        assert(y.push(c) =~= x);
        assert(seq![y].update(0, y.push(c)) =~= seq![x]);
        assert(words(x) == words(y).update(0, words(y).last().push(c)));
    }
}

/// A space and a word after some text add that word to the text's words.
proof fn lemma_words_push_word(s: Seq<char>, x: Seq<char>)
    requires
        is_word(x),
    ensures
        words(s + seq![' '] + x) == words(s).push(x),
    decreases x.len(),
{
    let t = s + seq![' '] + x;
    let c = x.last();
    assert(is_ws(' '));
    assert(!is_ws(x[x.len() - 1]));
    assert(t.last() == c);
    assert((s + seq![' ']).drop_last() =~= s);
    assert(words(s + seq![' ']) == words(s));
    if x.len() == 1 {
        assert(t.drop_last() =~= s + seq![' ']);
        assert(t[t.len() - 2] == ' ');
        assert(seq![c] =~= x);
    } else {
        let y = x.drop_last();
        assert forall|i: int| 0 <= i < y.len() implies !is_ws(#[trigger] y[i]) by {
            assert(y[i] == x[i]);
        }
        lemma_words_push_word(s, y);
        assert(t.drop_last() =~= s + seq![' '] + y);
        assert(t[t.len() - 2] == x[x.len() - 2]);
        assert(!is_ws(x[x.len() - 2]));
        assert(y.push(c) =~= x);
        assert(words(s).push(y).update(words(s).len() as int, y.push(c)) =~= words(s).push(x));
    }
}

/// Request law: the line `contents` asks for the manifest.
pub proof fn lemma_request_contents()
    ensures
        request_of(seq!['c', 'o', 'n', 't', 'e', 'n', 't', 's']) == RequestView::Contents,
{
    let c = seq!['c', 'o', 'n', 't', 'e', 'n', 't', 's'];
    assert(is_word(c));
    lemma_words_single(c);
}

/// Request law: `query`, a space and a word `f` ask for the time of exactly
/// the file `f`.
pub proof fn lemma_request_query(f: Seq<char>)
    requires
        is_word(f),
    ensures
        request_of(seq!['q', 'u', 'e', 'r', 'y', ' '] + f) == RequestView::Query(f),
{
    let c = seq!['q', 'u', 'e', 'r', 'y'];
    assert(is_word(c));
    lemma_words_single(c);
    lemma_words_push_word(c, f);
    assert(c + seq![' '] + f =~= seq!['q', 'u', 'e', 'r', 'y', ' '] + f);
}

/// Request law: `get`, a space and a word `f` ask for the text of exactly
/// the file `f`.
pub proof fn lemma_request_get(f: Seq<char>)
    requires
        is_word(f),
    ensures
        request_of(seq!['g', 'e', 't', ' '] + f) == RequestView::Get(f),
{
    let c = seq!['g', 'e', 't'];
    assert(is_word(c));
    lemma_words_single(c);
    lemma_words_push_word(c, f);
    assert(c + seq![' '] + f =~= seq!['g', 'e', 't', ' '] + f);
}

/// Request law: `put`, a word `f`, and a word `t`, separated by spaces, ask
/// to store exactly the text `t` under exactly the file `f`.
pub proof fn lemma_request_put(f: Seq<char>, t: Seq<char>)
    requires
        is_word(f),
        is_word(t),
    ensures
        request_of(seq!['p', 'u', 't', ' '] + f + seq![' '] + t) == (RequestView::Put {
            file: f,
            text: t,
        }),
{
    let c = seq!['p', 'u', 't'];
    assert(is_word(c));
    lemma_words_single(c);
    lemma_words_push_word(c, f);
    lemma_words_push_word(c + seq![' '] + f, t);
    assert(c + seq![' '] + f + seq![' '] + t =~= seq!['p', 'u', 't', ' '] + f + seq![' '] + t);
}

/// Request law: a command with the wrong number of words is refused, and
/// `put` ignores words after its text.
pub proof fn lemma_request_word_counts(f: Seq<char>, g: Seq<char>, x: Seq<char>)
    requires
        is_word(f),
        is_word(g),
        is_word(x),
    ensures
        request_of(Seq::<char>::empty()) == RequestView::Invalid,
        request_of(seq!['c', 'o', 'n', 't', 'e', 'n', 't', 's', ' '] + f) == RequestView::Invalid,
        request_of(seq!['q', 'u', 'e', 'r', 'y']) == RequestView::Invalid,
        request_of(seq!['q', 'u', 'e', 'r', 'y', ' '] + f + seq![' '] + g) == RequestView::Invalid,
        request_of(seq!['g', 'e', 't']) == RequestView::Invalid,
        request_of(seq!['g', 'e', 't', ' '] + f + seq![' '] + g) == RequestView::Invalid,
        request_of(seq!['p', 'u', 't', ' '] + f) == RequestView::Invalid,
        request_of(seq!['p', 'u', 't', ' '] + f + seq![' '] + g + seq![' '] + x) == (RequestView::Put {
            file: f,
            text: g,
        }),
{
    assert(words(Seq::<char>::empty()) == Seq::<Seq<char>>::empty());
    let c = seq!['c', 'o', 'n', 't', 'e', 'n', 't', 's'];
    let q = seq!['q', 'u', 'e', 'r', 'y'];
    let gt = seq!['g', 'e', 't'];
    let pt = seq!['p', 'u', 't'];
    assert(is_word(c) && is_word(q) && is_word(gt) && is_word(pt));
    lemma_words_single(c);
    lemma_words_single(q);
    lemma_words_single(gt);
    lemma_words_single(pt);
    lemma_words_push_word(c, f);
    assert(c + seq![' '] + f =~= seq!['c', 'o', 'n', 't', 'e', 'n', 't', 's', ' '] + f);
    lemma_words_push_word(q, f);
    lemma_words_push_word(q + seq![' '] + f, g);
    assert(q + seq![' '] + f + seq![' '] + g =~= seq!['q', 'u', 'e', 'r', 'y', ' '] + f + seq![' '] + g);
    lemma_words_push_word(gt, f);
    lemma_words_push_word(gt + seq![' '] + f, g);
    assert(gt + seq![' '] + f + seq![' '] + g =~= seq!['g', 'e', 't', ' '] + f + seq![' '] + g);
    lemma_words_push_word(pt, f);
    assert(pt + seq![' '] + f =~= seq!['p', 'u', 't', ' '] + f);
    lemma_words_push_word(pt + seq![' '] + f, g);
    lemma_words_push_word(pt + seq![' '] + f + seq![' '] + g, x);
    assert(pt + seq![' '] + f + seq![' '] + g + seq![' '] + x =~= seq!['p', 'u', 't', ' '] + f
        + seq![' '] + g + seq![' '] + x);
}

} // verus!
