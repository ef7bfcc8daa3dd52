//! Rewriting of the request line: the matched route prefix is taken off the
//! path, and every byte after the first line is kept as it came.

use vstd::prelude::*;
use vstd::slice::slice_subrange;
use vstd::slice::slice_to_vec;
use vstd::utf8::encode_scalar;
use vstd::utf8::encode_utf8;
use crate::text::chars_of;
use crate::text::is_word;
use crate::text::lemma_words_after_space;
use crate::text::lemma_words_after_word;
use crate::text::lemma_words_are_words;
use crate::text::starts_with_at;
use crate::text::word_ranges;
use crate::text::words;

verus! {

/// Whether `b` is a carriage return or a line feed.
pub open spec fn is_eol(b: u8) -> bool {
    b == 13u8 || b == 10u8
}

/// Whether `e` is the index of the first line terminator byte of `data`.
pub open spec fn is_first_eol(data: Seq<u8>, e: int) -> bool {
    &&& 0 <= e < data.len()
    &&& is_eol(data[e])
    &&& forall|j: int| 0 <= j < e ==> !is_eol(#[trigger] data[j])
}

/// Whether `data` holds a line terminator byte.
pub open spec fn has_eol(data: Seq<u8>) -> bool {
    exists|e: int| is_first_eol(data, e)
}

/// The index of the first line terminator byte of `data`, where it has one.
pub open spec fn first_eol(data: Seq<u8>) -> int {
    choose|e: int| is_first_eol(data, e)
}

/// The first line terminator is the only index that `is_first_eol` admits.
pub proof fn lemma_first_eol_unique(data: Seq<u8>, e: int)
    requires
        is_first_eol(data, e),
    ensures
        has_eol(data),
        first_eol(data) == e,
{
    let f = first_eol(data);
    assert(is_first_eol(data, f));
    if f < e {
        assert(!is_eol(data[f]));
    }
    if e < f {
        assert(!is_eol(data[e]));
    }
}

/// `path` without the leading `prefix`, kept absolute: a remainder that is
/// empty or does not begin with `/` gets one put in front. A path that does
/// not begin with `prefix` stays as it is.
pub open spec fn stripped(path: Seq<char>, prefix: Seq<char>) -> Seq<char> {
    if prefix.is_prefix_of(path) {
        let rest = path.skip(prefix.len() as int);
        if rest.len() == 0 || rest[0] != '/' {
            seq!['/'] + rest
        } else {
            rest
        }
    } else {
        path
    }
}

/// Taking a prefix off itself leaves the root path.
pub proof fn lemma_strip_whole(prefix: Seq<char>)
    ensures
        stripped(prefix, prefix) == seq!['/'],
{
    assert(prefix.is_prefix_of(prefix));
    assert(stripped(prefix, prefix) =~= seq!['/']);
}

/// Taking a prefix off a path that goes on with `/` leaves what follows the
/// prefix, from that `/` on.
pub proof fn lemma_strip_segment(prefix: Seq<char>, rest: Seq<char>)
    ensures
        stripped(prefix + seq!['/'] + rest, prefix) == seq!['/'] + rest,
{
    let path = prefix + seq!['/'] + rest;
    assert(prefix.is_prefix_of(path));
    assert(path.skip(prefix.len() as int) =~= seq!['/'] + rest);
}

/// The request line `line` with `prefix` taken off its path: method, new
/// path and version joined by single blanks. `None` where the line does not
/// hold exactly three words.
pub open spec fn rewritten_line(line: Seq<char>, prefix: Seq<char>) -> Option<Seq<char>> {
    let w = words(line);
    if w.len() == 3 {
        Some(w[0] + seq![' '] + stripped(w[1], prefix) + seq![' '] + w[2])
    } else {
        None
    }
}

/// The lossy UTF-8 decoding of `bytes`: every valid sequence as its
/// character, every invalid one as U+FFFD.
pub uninterp spec fn utf8_lossy(bytes: Seq<u8>) -> Seq<char>;

/// What the backend is sent for the buffered request `data` once `prefix`
/// has matched: the first line rewritten, the rest untouched.
pub open spec fn rewritten(data: Seq<u8>, prefix: Seq<char>) -> Seq<u8> {
    if prefix.len() == 0 || !has_eol(data) {
        data
    } else {
        let e = first_eol(data);
        match rewritten_line(utf8_lossy(data.take(e)), prefix) {
            Some(line) => encode_utf8(line) + data.skip(e),
            None => data,
        }
    }
}

/// Taking a prefix off a word leaves a word.
pub proof fn lemma_stripped_word(path: Seq<char>, prefix: Seq<char>)
    requires
        is_word(path),
    ensures
        is_word(stripped(path, prefix)),
{
    if prefix.is_prefix_of(path) {
        let rest = path.skip(prefix.len() as int);
        assert forall|i: int| 0 <= i < rest.len() implies !crate::text::is_space(
            #[trigger] rest[i],
        ) by {
            assert(rest[i] == path[i + prefix.len()]);
        }
        if rest.len() == 0 || rest[0] != '/' {
            let out = seq!['/'] + rest;
            assert forall|i: int| 0 <= i < out.len() implies !crate::text::is_space(
                #[trigger] out[i],
            ) by {
                if i > 0 {
                    assert(out[i] == rest[i - 1]);
                }
            }
        }
    }
}

/// Rewriting a request line changes its path and nothing else: the new line
/// holds three words again, the method and the version as they were and
/// the path without the prefix.
pub proof fn lemma_rewritten_line_words(line: Seq<char>, prefix: Seq<char>)
    requires
        words(line).len() == 3,
    ensures
        rewritten_line(line, prefix) is Some,
        words(rewritten_line(line, prefix)->0) == seq![
            words(line)[0],
            stripped(words(line)[1], prefix),
            words(line)[2],
        ],
{
    let w = words(line);
    let path = stripped(w[1], prefix);
    lemma_words_are_words(line);
    lemma_stripped_word(w[1], prefix);
    let blank = seq![' '];
    let tail2 = blank + w[2];
    let tail1 = path + tail2;
    let tail0 = blank + tail1;
    assert(w[0] + blank + path + blank + w[2] =~= w[0] + tail0);
    assert(tail0[0] == ' ');
    assert(tail2[0] == ' ');
    lemma_words_after_word(w[0], tail0);
    lemma_words_after_space(' ', tail1);
    lemma_words_after_word(path, tail2);
    lemma_words_after_space(' ', w[2]);
    lemma_words_after_word(w[2], Seq::<char>::empty());
    assert(w[2] + Seq::<char>::empty() =~= w[2]);
    assert(words(Seq::<char>::empty()) =~= Seq::<Seq<char>>::empty());
    assert(words(w[0] + tail0) =~= seq![w[0], path, w[2]]);
}

proof fn lemma_high_bytes(x: u8)
    by (bit_vector)
    ensures
        0x80u8 | x >= 0x80u8,
        0xC0u8 | x >= 0x80u8,
        0xE0u8 | x >= 0x80u8,
        0xF0u8 | x >= 0x80u8,
{
}

proof fn lemma_low_byte(c: u32)
    by (bit_vector)
    requires
        c <= 0x7F,
    ensures
        (c & 0x7F) as u8 as u32 == c,
{
}

/// Only the two line terminator characters have a terminator byte in their
/// encoding.
proof fn lemma_scalar_no_eol(c: u32)
    requires
        c != 13 && c != 10,
    ensures
        forall|j: int| 0 <= j < encode_scalar(c).len() ==> !is_eol(#[trigger] encode_scalar(c)[j]),
{
    if c <= 0x7F {
        lemma_low_byte(c);
    } else {
        lemma_high_bytes(((c >> 6) & 0x1F) as u8);
        lemma_high_bytes(((c >> 12) & 0x0F) as u8);
        lemma_high_bytes(((c >> 18) & 0x7) as u8);
        lemma_high_bytes((c & 0x3F) as u8);
        lemma_high_bytes(((c >> 6) & 0x3F) as u8);
        lemma_high_bytes(((c >> 12) & 0x3F) as u8);
    }
}

/// The encoding of a text without line terminator characters holds no line
/// terminator byte.
pub proof fn lemma_encoding_no_eol(text: Seq<char>)
    requires
        forall|i: int| 0 <= i < text.len() ==> (#[trigger] text[i]) != '\r' && text[i] != '\n',
    ensures
        forall|j: int|
            0 <= j < encode_utf8(text).len() ==> !is_eol(#[trigger] encode_utf8(text)[j]),
    decreases text.len(),
{
    if text.len() > 0 {
        let rest = text.drop_first();
        assert(text[0] != '\r' && text[0] != '\n');
        assert forall|i: int| 0 <= i < rest.len() implies (#[trigger] rest[i]) != '\r' && rest[i]
            != '\n' by {
            assert(rest[i] == text[i + 1]);
        }
        lemma_encoding_no_eol(rest);
        let first: u32 = text[0] as u32;
        vstd::utf8::char_u32_cast(text[0], first);
        vstd::utf8::char_u32_cast('\r', 13u32);
        vstd::utf8::char_u32_cast('\n', 10u32);
        lemma_scalar_no_eol(first);
        let head = encode_scalar(first);
        let tail = encode_utf8(rest);
        assert forall|j: int| 0 <= j < encode_utf8(text).len() implies !is_eol(
            #[trigger] encode_utf8(text)[j],
        ) by {
            if j < head.len() {
                assert(encode_utf8(text)[j] == head[j]);
            } else {
                assert(encode_utf8(text)[j] == tail[j - head.len()]);
            }
        }
    }
}

/// A rewritten request line holds no line terminator character.
pub proof fn lemma_rewritten_line_no_eol(line: Seq<char>, prefix: Seq<char>)
    requires
        rewritten_line(line, prefix) is Some,
    ensures
        forall|i: int|
            0 <= i < rewritten_line(line, prefix)->0.len() ==> (#[trigger] rewritten_line(
                line,
                prefix,
            )->0[i]) != '\r' && rewritten_line(line, prefix)->0[i] != '\n',
{
    let w = words(line);
    let path = stripped(w[1], prefix);
    lemma_words_are_words(line);
    lemma_stripped_word(w[1], prefix);
    let out = rewritten_line(line, prefix)->0;
    assert(is_word(w[0]) && is_word(path) && is_word(w[2]));
    assert(crate::text::is_space('\r') && crate::text::is_space('\n'));
    assert forall|i: int| 0 <= i < out.len() implies (#[trigger] out[i]) != '\r' && out[i]
        != '\n' by {
        let a = w[0].len() as int;
        let b = a + 1 + path.len();
        if i < a {
            assert(out[i] == w[0][i]);
        } else if i == a {
            assert(out[i] == ' ');
        } else if i < b {
            assert(out[i] == path[i - a - 1]);
        } else if i == b {
            assert(out[i] == ' ');
        } else {
            assert(out[i] == w[2][i - b - 1]);
        }
    }
}

/// Where the request line is rewritten, the first line of the result is
/// the encoding of the new line, and nothing else.
pub proof fn lemma_rewrite_first_line(data: Seq<u8>, prefix: Seq<char>)
    requires
        has_eol(data),
        prefix.len() > 0,
        rewritten_line(utf8_lossy(data.take(first_eol(data))), prefix) is Some,
    ensures
        has_eol(rewritten(data, prefix)),
        rewritten(data, prefix).take(first_eol(rewritten(data, prefix))) == encode_utf8(
            rewritten_line(utf8_lossy(data.take(first_eol(data))), prefix)->0,
        ),
{
    let e = first_eol(data);
    assert(is_first_eol(data, e));
    let out = rewritten(data, prefix);
    let line = utf8_lossy(data.take(e));
    let new_line = rewritten_line(line, prefix)->0;
    let head = encode_utf8(new_line);
    lemma_rewritten_line_no_eol(line, prefix);
    lemma_encoding_no_eol(new_line);
    let n = head.len() as int;
    assert(out =~= head + data.skip(e));
    assert(out[n] == data[e]);
    assert forall|j: int| 0 <= j < n implies !is_eol(#[trigger] out[j]) by {
        assert(out[j] == head[j]);
    }
    lemma_first_eol_unique(out, n);
    assert(out.take(n) =~= head);
}

/// Rewriting never alters what follows the first line: a request with a
/// line terminator is rewritten to one with a line terminator, and from
/// their first terminators on the two are byte for byte the same, so that
/// headers and body reach the backend as the client sent them.
pub proof fn lemma_rewrite_keeps_rest(data: Seq<u8>, prefix: Seq<char>)
    requires
        has_eol(data),
    ensures
        has_eol(rewritten(data, prefix)),
        rewritten(data, prefix).skip(first_eol(rewritten(data, prefix))) == data.skip(
            first_eol(data),
        ),
{
    let e = first_eol(data);
    let out = rewritten(data, prefix);
    let line = utf8_lossy(data.take(e));
    if prefix.len() > 0 && rewritten_line(line, prefix) is Some {
        lemma_rewrite_first_line(data, prefix);
        let head = encode_utf8(rewritten_line(line, prefix)->0);
        let n = first_eol(out);
        assert(is_first_eol(out, n));
        assert(out =~= head + data.skip(e));
        assert(out.take(n) == head);
        assert(n == head.len());
        assert(out.skip(n) =~= data.skip(e));
    }
}

/// Rewriting with an empty prefix, or a request that holds no line
/// terminator, gives the request back byte for byte.
pub proof fn lemma_rewrite_identity(data: Seq<u8>, prefix: Seq<char>)
    requires
        prefix.len() == 0 || !has_eol(data),
    ensures
        rewritten(data, prefix) == data,
{
}

/// Decodes `bytes` with `String::from_utf8_lossy`. Trusted: the result is
/// taken to be a function of the bytes alone, named `utf8_lossy`.
#[verifier::external_body]
fn decode_lossy(bytes: &[u8]) -> (text: String)
    ensures
        text@ == utf8_lossy(bytes@),
{
    String::from_utf8_lossy(bytes).into_owned()
}

/// Takes `prefix` off the front of `path` and keeps the result absolute.
pub fn strip_prefix(path: &str, prefix: &str) -> (out: String)
    ensures
        out@ == stripped(path@, prefix@),
{
    let p = chars_of(path);
    let q = chars_of(prefix);
    proof {
        assert(p@.skip(0) =~= p@);
    }
    if starts_with_at(&p, 0, &q) {
        let rest = path.substring_char(q.len(), p.len());
        assert(rest@ =~= path@.skip(prefix@.len() as int));
        if q.len() == p.len() || p[q.len()] != '/' {
            let mut out = String::from_str("/");
            proof {
                reveal_strlit("/");
            }
            out.append(rest);
            assert(out@ =~= seq!['/'] + rest@);
            out
        } else {
            String::from_str(rest)
        }
    } else {
        String::from_str(path)
    }
}

/// Rewrites one decoded request line. `None` where the line does not hold
/// exactly three words, so that the caller leaves the request alone.
pub fn rewrite_line(line: &str, prefix: &str) -> (out: Option<String>)
    ensures
        match out {
            Some(l) => rewritten_line(line@, prefix@) == Some(l@),
            None => rewritten_line(line@, prefix@) is None,
        },
{
    let text = chars_of(line);
    let ranges = word_ranges(&text);
    if ranges.len() != 3 {
        return None;
    }
    let method = line.substring_char(ranges[0].0, ranges[0].1);
    let path = line.substring_char(ranges[1].0, ranges[1].1);
    let version = line.substring_char(ranges[2].0, ranges[2].1);
    let new_path = strip_prefix(path, prefix);
    let mut out = String::from_str(method);
    proof {
        reveal_strlit(" ");
    }
    out.append(" ");
    out.append(new_path.as_str());
    out.append(" ");
    out.append(version);
    proof {
        let w = words(line@);
        assert(out@ =~= w[0] + seq![' '] + stripped(w[1], prefix@) + seq![' '] + w[2]);
    }
    Some(out)
}

/// Rewrites the request held in `request_data` for a route whose prefix
/// `prefix_to_strip` matched: the path of the request line loses the prefix,
/// and every byte from the first line terminator on is kept.
pub fn rewrite_request_path(request_data: &[u8], _original_path: &str, prefix_to_strip: &str) -> (out:
    Vec<u8>)
    ensures
        out@ == rewritten(request_data@, prefix_to_strip@),
{
    if prefix_to_strip.is_empty() {
        return slice_to_vec(request_data);
    }
    let n: usize = request_data.len();
    let mut e: usize = 0;
    while e < n && request_data[e] != 13 && request_data[e] != 10
        invariant
            e <= n,
            n == request_data@.len(),
            forall|j: int| 0 <= j < e ==> !is_eol(#[trigger] request_data@[j]),
        decreases n - e,
    {
        e += 1;
    }
    if e == n {
        proof {
            if has_eol(request_data@) {
                let f = first_eol(request_data@);
                assert(is_first_eol(request_data@, f));
                assert(is_eol(request_data@[f]));
            }
        }
        return slice_to_vec(request_data);
    }
    proof {
        lemma_first_eol_unique(request_data@, e as int);
    }
    let line = decode_lossy(slice_subrange(request_data, 0, e));
    match rewrite_line(line.as_str(), prefix_to_strip) {
        Some(new_line) => {
            let mut out: Vec<u8> = slice_to_vec(new_line.as_str().as_bytes());
            out.extend_from_slice(slice_subrange(request_data, e, n));
            assert(out@ =~= encode_utf8(new_line@) + request_data@.skip(e as int));
            out
        },
        None => slice_to_vec(request_data),
    }
}

} // verus!
