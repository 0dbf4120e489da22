use vstd::prelude::*;
use vstd::string::StringExecFns;
use vstd::string::StringSliceAdditionalSpecFns;
use vstd::utf8::{
    decode_utf8,
    is_char_boundary, is_continuation_byte, length_of_first_scalar, pop_first_scalar,
    valid_first_scalar, valid_utf8,
};

verus! {

broadcast use {
    vstd::utf8::encode_utf8_valid_utf8,
    vstd::utf8::is_char_boundary_iff_not_is_continuation_byte,
    vstd::utf8::is_char_boundary_start_end_of_seq,
};

/// The first index at or after `i` where `d` occurs in `s`.
pub open spec fn find_from(s: Seq<u8>, d: Seq<u8>, i: int) -> Option<int>
    decreases s.len() + 1 - i,
{
    if i < 0 || i + d.len() > s.len() {
        None
    } else if s.subrange(i, i + d.len()) == d {
        Some(i)
    } else {
        find_from(s, d, i + 1)
    }
}

/// The first index where `d` occurs in `s`.
pub open spec fn first_match(s: Seq<u8>, d: Seq<u8>) -> Option<int> {
    find_from(s, d, 0)
}

/// What precedes the first `d` in `s` (all of `s` if there is none).
pub open spec fn before_first(s: Seq<u8>, d: Seq<u8>) -> Seq<u8> {
    match first_match(s, d) {
        Some(i) => s.subrange(0, i),
        None => s,
    }
}

/// What follows the first `d` in `s`, if there is one.
pub open spec fn after_first(s: Seq<u8>, d: Seq<u8>) -> Option<Seq<u8>> {
    match first_match(s, d) {
        Some(i) => Some(s.subrange(i + d.len(), s.len() as int)),
        None => None,
    }
}

/// The pieces of `s` between occurrences of `d`, as `str::split` yields them
/// for a non-empty `d`; an empty `d` leaves `s` whole.
pub open spec fn split_spec(s: Seq<u8>, d: Seq<u8>) -> Seq<Seq<u8>>
    decreases s.len(),
{
    match first_match(s, d) {
        Some(i) => if d.len() > 0 && 0 <= i && i + d.len() <= s.len() {
            seq![s.subrange(0, i)] + split_spec(s.subrange(i + d.len(), s.len() as int), d)
        } else {
            seq![s]
        },
        None => seq![s],
    }
}

proof fn lemma_find_from(s: Seq<u8>, d: Seq<u8>, i: int)
    ensures
        find_from(s, d, i) matches Some(j) ==> i <= j && j + d.len() <= s.len() && s.subrange(
            j,
            j + d.len(),
        ) == d,
    decreases s.len() + 1 - i,
{
    if !(i < 0 || i + d.len() > s.len()) && s.subrange(i, i + d.len()) != d {
        lemma_find_from(s, d, i + 1);
    }
}

/// Relies on `str::find` with a `&str` pattern: the byte index of the first
/// occurrence of `delim`, which starts and ends on character boundaries.
#[verifier::external_body]
fn find_str(s: &str, delim: &str) -> (r: Option<usize>)
    ensures
        r matches Some(i) ==> first_match(s.spec_bytes(), delim.spec_bytes()) == Some(i as int)
            && is_char_boundary(s.spec_bytes(), i as int) && is_char_boundary(
            s.spec_bytes(),
            i + delim.spec_bytes().len(),
        ),
        r is None ==> first_match(s.spec_bytes(), delim.spec_bytes()) is None,
{
    s.find(delim)
}

/// Splits `s` at the first `delim`: what precedes it, and what follows it if
/// it occurs.
pub fn split_at_first_delim<'a>(s: &'a str, delim: &'a str) -> (r: (
    &'a str,
    Option<&'a str>,
))
    ensures
        r.0.spec_bytes() == before_first(s.spec_bytes(), delim.spec_bytes()),
        match after_first(s.spec_bytes(), delim.spec_bytes()) {
            Some(a) => r.1 matches Some(x) && x.spec_bytes() == a,
            None => r.1 is None,
        },
{
    let pos = find_str(s, delim);
    match pos {
        Some(pos) => {
            let ghost b = s.spec_bytes();
            let dl = delim.as_bytes().len();
            proof {
                lemma_find_from(b, delim.spec_bytes(), 0);
            }
            let (before, rest) = s.split_at(pos);
            proof {
                let rb = rest.spec_bytes();
                assert(rb =~= b.subrange(pos as int, b.len() as int));
                let k = delim.spec_bytes().len() as int;
                assert(valid_utf8(rb));
                assert(valid_utf8(b));
                if k < rb.len() {
                    assert(rb[k] == b[pos + k]);
                    assert(is_char_boundary(b, pos + k));
                    assert(!is_continuation_byte(b[pos + k]));
                    assert(!is_continuation_byte(rb[k]));
                    assert(is_char_boundary(rb, k));
                } else {
                    assert(is_char_boundary(rb, rb.len() as int));
                }
                assert(is_char_boundary(rest.spec_bytes(), dl as int));
            }
            let (_, after) = rest.split_at(dl);
            proof {
                assert(after.spec_bytes() =~= b.subrange(pos + delim.spec_bytes().len(), b.len() as int));
            }
            (before, Some(after))
        },
        None => (s, None),
    }
}


/// Splits `s` at every `delim`.
fn split_all<'a>(s: &'a str, delim: &'a str) -> (r: Vec<&'a str>)
    ensures
        r@.len() == split_spec(s.spec_bytes(), delim.spec_bytes()).len(),
        forall|i: int|
            0 <= i < r@.len() ==> #[trigger] r@[i].spec_bytes() == split_spec(
                s.spec_bytes(),
                delim.spec_bytes(),
            )[i],
{
    let ghost d = delim.spec_bytes();
    let mut out: Vec<&'a str> = Vec::new();
    if delim.as_bytes().len() == 0 {
        out.push(s);
        return out;
    }
    let mut rest: &'a str = s;
    let mut done = false;
    while !done
        invariant
            d == delim.spec_bytes(),
            d.len() > 0,
            ({
                let got = out@.map_values(|x: &str| x.spec_bytes());
                done ==> got == split_spec(s.spec_bytes(), d)
            }),
            ({
                let got = out@.map_values(|x: &str| x.spec_bytes());
                !done ==> got + split_spec(rest.spec_bytes(), d) == split_spec(s.spec_bytes(), d)
            }),
        decreases (if done { 0 } else { rest.spec_bytes().len() + 1 }),
    {
        let ghost rb = rest.spec_bytes();
        let ghost before_out = out@.map_values(|x: &str| x.spec_bytes());
        let (piece, tail) = split_at_first_delim(rest, delim);
        proof {
            lemma_find_from(rb, d, 0);
        }
        out.push(piece);
        assert(out@.map_values(|x: &str| x.spec_bytes()) =~= before_out.push(piece.spec_bytes()));
        match tail {
            Some(t) => {
                assert(split_spec(rb, d) =~= seq![piece.spec_bytes()] + split_spec(t.spec_bytes(), d));
                assert(before_out.push(piece.spec_bytes()) + split_spec(t.spec_bytes(), d) =~= before_out
                    + split_spec(rb, d));
                rest = t;
            },
            None => {
                assert(split_spec(rb, d) =~= seq![piece.spec_bytes()]);
                assert(before_out.push(piece.spec_bytes()) =~= before_out + split_spec(rb, d));
                done = true;
            },
        }
    }
    proof {
        let got = out@.map_values(|x: &str| x.spec_bytes());
        assert forall|i: int| 0 <= i < out@.len() implies #[trigger] out@[i].spec_bytes()
            == split_spec(s.spec_bytes(), d)[i] by {
            assert(got[i] == out@[i].spec_bytes());
        }
    }
    out
}


/// A URL split into its path and its query: the raw parts, the decoded path
/// segments, and the decoded `key[=value]` entries of the query.
#[derive(Debug)]
pub struct ParsedUrl<'a> {
    pub before_query: &'a str,
    pub after_query: Option<&'a str>,
    pub decoded_segments: Vec<String>,
    pub decoded_queries: Vec<(String, Option<String>)>,
}

/// The path with its first character (the `/`) left out.
pub open spec fn drop_lead(b: Seq<u8>) -> Seq<u8> {
    if b.len() == 0 {
        b
    } else {
        pop_first_scalar(b)
    }
}

/// The raw path segments of a URL.
pub open spec fn segments_of(u: Seq<u8>) -> Seq<Seq<u8>> {
    split_spec(drop_lead(before_first(u, "?".spec_bytes())), "/".spec_bytes())
}

/// The raw `key[=value]` entries of a URL's query.
pub open spec fn entries_of(u: Seq<u8>) -> Seq<Seq<u8>> {
    match after_first(u, "?".spec_bytes()) {
        Some(q) => split_spec(q, "&".spec_bytes()),
        None => Seq::empty(),
    }
}

/// `f` may turn a string with the bytes `piece` into `out`.
pub open spec fn decodes_to<E, F: Fn(&str) -> Result<String, E>>(
    f: F,
    piece: Seq<u8>,
    out: Result<String, E>,
) -> bool {
    exists|x: &str| x.spec_bytes() == piece && #[trigger] f.ensures((x,), out)
}

/// A decoded entry: its key decoded, and its value decoded if it has one.
pub open spec fn entry_decodes_to<E, F: Fn(&str) -> Result<String, E>>(
    f: F,
    entry: Seq<u8>,
    out: (String, Option<String>),
) -> bool {
    &&& decodes_to(f, before_first(entry, "=".spec_bytes()), Ok(out.0))
    &&& match after_first(entry, "=".spec_bytes()) {
        Some(v) => out.1 matches Some(dv) && decodes_to(f, v, Ok(dv)),
        None => out.1 is None,
    }
}

/// `f` may decode a string with the bytes `piece` successfully.
pub open spec fn decodes_ok<E, F: Fn(&str) -> Result<String, E>>(f: F, piece: Seq<u8>) -> bool {
    exists|out: String| decodes_to(f, piece, Ok(out))
}

/// `f` may decode the key of `entry`, and its value if it has one.
pub open spec fn entry_decodes_ok<E, F: Fn(&str) -> Result<String, E>>(
    f: F,
    entry: Seq<u8>,
) -> bool {
    exists|out: (String, Option<String>)| entry_decodes_to(f, entry, out)
}

/// An entry whose key `f` may fail on with `e`, or whose key decodes and
/// whose value `f` may then fail on with `e`.
pub open spec fn entry_fails_with<E, F: Fn(&str) -> Result<String, E>>(
    f: F,
    entry: Seq<u8>,
    e: E,
) -> bool {
    ||| decodes_to(f, before_first(entry, "=".spec_bytes()), Err(e))
    ||| {
        &&& decodes_ok(f, before_first(entry, "=".spec_bytes()))
        &&& (after_first(entry, "=".spec_bytes()) matches Some(v) && decodes_to(f, v, Err(e)))
    }
}

/// Decodes one `key[=value]` entry of a query.
fn query_decoder<E, F: Fn(&str) -> Result<String, E>>(input: &str, decoder: &F) -> (r: Result<
    (String, Option<String>),
    E,
>)
    requires
        forall|x: &str| #[trigger] decoder.requires((x,)),
    ensures
        r matches Ok(out) ==> entry_decodes_to(*decoder, input.spec_bytes(), out),
        r matches Err(e) ==> entry_fails_with(*decoder, input.spec_bytes(), e),
{
    let (pre_before, pre_after) = split_at_first_delim(input, "=");
    let before = decoder(pre_before);
    proof {
        assert(decoder.ensures((pre_before,), before));
    }
    let ghost key_result = before;
    let before = match before {
        Ok(b) => b,
        Err(e) => {
            return Err(e);
        },
    };
    let after = match pre_after {
        Some(a) => {
            let d = decoder(a);
            proof {
                assert(decoder.ensures((a,), d));
            }
            match d {
                Ok(x) => Some(x),
                Err(e) => {
                    assert(decodes_to(*decoder, pre_before.spec_bytes(), key_result));
                    return Err(e);
                },
            }
        },
        None => None,
    };
    Ok((before, after))
}

/// The first piece of `u` that `f` fails on, in the order the pieces are
/// decoded (the segments from left to right, then each query entry), fails
/// with `e`, and every piece before it decodes.
pub open spec fn parse_fails_with<E, F: Fn(&str) -> Result<String, E>>(
    f: F,
    u: Seq<u8>,
    e: E,
) -> bool {
    ||| exists|i: int|
        0 <= i < segments_of(u).len() && (forall|j: int|
            0 <= j < i ==> decodes_ok(f, #[trigger] segments_of(u)[j])) && decodes_to(
            f,
            #[trigger] segments_of(u)[i],
            Err(e),
        )
    ||| {
        &&& forall|j: int|
            0 <= j < segments_of(u).len() ==> decodes_ok(f, #[trigger] segments_of(u)[j])
        &&& exists|k: int|
            0 <= k < entries_of(u).len() && (forall|j: int|
                0 <= j < k ==> entry_decodes_ok(f, #[trigger] entries_of(u)[j]))
                && entry_fails_with(f, #[trigger] entries_of(u)[k], e)
    }
}

proof fn lemma_segment_fails<E, F: Fn(&str) -> Result<String, E>>(
    f: F,
    u: Seq<u8>,
    outs: Seq<String>,
    e: E,
)
    requires
        outs.len() < segments_of(u).len(),
        forall|j: int| 0 <= j < outs.len() ==> decodes_to(f, segments_of(u)[j], Ok(#[trigger] outs[j])),
        decodes_to(f, segments_of(u)[outs.len() as int], Err(e)),
    ensures
        parse_fails_with(f, u, e),
{
    let i = outs.len() as int;
    assert forall|j: int| 0 <= j < i implies decodes_ok(f, #[trigger] segments_of(u)[j]) by {
        assert(decodes_to(f, segments_of(u)[j], Ok(outs[j])));
    }
}

proof fn lemma_entry_fails<E, F: Fn(&str) -> Result<String, E>>(
    f: F,
    u: Seq<u8>,
    segs_out: Seq<String>,
    outs: Seq<(String, Option<String>)>,
    e: E,
)
    requires
        segs_out.len() == segments_of(u).len(),
        forall|j: int|
            0 <= j < segs_out.len() ==> decodes_to(f, segments_of(u)[j], Ok(#[trigger] segs_out[j])),
        outs.len() < entries_of(u).len(),
        forall|j: int| 0 <= j < outs.len() ==> entry_decodes_to(f, entries_of(u)[j], #[trigger] outs[j]),
        entry_fails_with(f, entries_of(u)[outs.len() as int], e),
    ensures
        parse_fails_with(f, u, e),
{
    assert forall|j: int| 0 <= j < segments_of(u).len() implies decodes_ok(
        f,
        #[trigger] segments_of(u)[j],
    ) by {
        assert(decodes_to(f, segments_of(u)[j], Ok(segs_out[j])));
    }
    assert forall|j: int| 0 <= j < outs.len() implies entry_decodes_ok(f, #[trigger] entries_of(u)[j]) by {
        assert(entry_decodes_to(f, entries_of(u)[j], outs[j]));
    }
}

impl<'a> ParsedUrl<'a> {
    /// Splits `raw_url` at its first `?`; decodes each `/`-separated segment
    /// of the path (its first character left out) and each `&`-separated entry
    /// of the query. The first error of `decoder` is returned.
    pub fn parse_new<'b, E, F: Fn(&str) -> Result<String, E>>(
        raw_url: &'b str,
        decoder: F,
    ) -> (r: Result<ParsedUrl<'b>, E>)
        requires
            forall|x: &str| #[trigger] decoder.requires((x,)),
        ensures
            r matches Ok(pu) ==> {
                let u = raw_url.spec_bytes();
                &&& pu.before_query.spec_bytes() == before_first(u, "?".spec_bytes())
                &&& match after_first(u, "?".spec_bytes()) {
                    Some(a) => pu.after_query matches Some(x) && x.spec_bytes() == a,
                    None => pu.after_query is None,
                }
                &&& pu.decoded_segments@.len() == segments_of(u).len()
                &&& forall|i: int|
                    0 <= i < segments_of(u).len() ==> decodes_to(
                        decoder,
                        segments_of(u)[i],
                        Ok(#[trigger] pu.decoded_segments@[i]),
                    )
                &&& pu.decoded_queries@.len() == entries_of(u).len()
                &&& forall|i: int|
                    0 <= i < entries_of(u).len() ==> entry_decodes_to(
                        decoder,
                        entries_of(u)[i],
                        #[trigger] pu.decoded_queries@[i],
                    )
            },
            r matches Err(e) ==> parse_fails_with(decoder, raw_url.spec_bytes(), e),
    {
        let ghost u = raw_url.spec_bytes();
        let (before_query, after_query) = split_at_first_delim(raw_url, "?");
        let path = if before_query.as_bytes().len() == 0 {
            before_query
        } else {
            let ghost b = before_query.spec_bytes();
            let b0 = before_query.as_bytes()[0];
            let w: usize = if b0 <= 0x7f {
                1
            } else if 0xc0 <= b0 && b0 <= 0xdf {
                2
            } else if 0xe0 <= b0 && b0 <= 0xef {
                3
            } else {
                4
            };
            proof {
                assert(valid_utf8(b));
                assert(valid_first_scalar(b));
                assert(w == length_of_first_scalar(b));
                assert(is_char_boundary(pop_first_scalar(b), 0));
                assert(is_char_boundary(b, w as int)) by {
                    reveal_with_fuel(is_char_boundary, 2);
                }
            }
            let (_, p) = before_query.split_at(w);
            assert(p.spec_bytes() =~= pop_first_scalar(b));
            p
        };
        let pieces = split_all(path, "/");
        let mut decoded_segments: Vec<String> = Vec::new();
        let mut i: usize = 0;
        while i < pieces.len()
            invariant
                forall|x: &str| #[trigger] decoder.requires((x,)),
                u == raw_url.spec_bytes(),
                pieces@.len() == segments_of(u).len(),
                forall|j: int| 0 <= j < pieces@.len() ==> #[trigger] pieces@[j].spec_bytes() == segments_of(u)[j],
                0 <= i <= pieces@.len(),
                decoded_segments@.len() == i,
                forall|j: int|
                    0 <= j < i ==> decodes_to(
                        decoder,
                        segments_of(u)[j],
                        Ok(#[trigger] decoded_segments@[j]),
                    ),
            decreases pieces@.len() - i,
        {
            let d = decoder(pieces[i]);
            proof {
                assert(pieces@[i as int].spec_bytes() == segments_of(u)[i as int]);
                assert(decodes_to(decoder, segments_of(u)[i as int], d));
            }
            match d {
                Ok(x) => {
                    decoded_segments.push(x);
                },
                Err(e) => {
                    proof {
                        lemma_segment_fails(decoder, u, decoded_segments@, e);
                    }
                    return Err(e);
                },
            }
            i = i + 1;
        }
        let mut decoded_queries: Vec<(String, Option<String>)> = Vec::new();
        if let Some(q) = after_query {
            let entries = split_all(q, "&");
            let mut k: usize = 0;
            while k < entries.len()
                invariant
                    forall|x: &str| #[trigger] decoder.requires((x,)),
                    u == raw_url.spec_bytes(),
                    entries@.len() == entries_of(u).len(),
                    forall|j: int| 0 <= j < entries@.len() ==> #[trigger] entries@[j].spec_bytes() == entries_of(u)[j],
                    0 <= k <= entries@.len(),
                    decoded_queries@.len() == k,
                    decoded_segments@.len() == segments_of(u).len(),
                    forall|j: int|
                        0 <= j < decoded_segments@.len() ==> decodes_to(
                            decoder,
                            segments_of(u)[j],
                            Ok(#[trigger] decoded_segments@[j]),
                        ),
                    forall|j: int|
                        0 <= j < k ==> entry_decodes_to(
                            decoder,
                            entries_of(u)[j],
                            #[trigger] decoded_queries@[j],
                        ),
                decreases entries@.len() - k,
            {
                let d = query_decoder(entries[k], &decoder);
                proof {
                    assert(entries@[k as int].spec_bytes() == entries_of(u)[k as int]);
                }
                match d {
                    Ok(x) => {
                        decoded_queries.push(x);
                    },
                    Err(e) => {
                        proof {
                            lemma_entry_fails(decoder, u, decoded_segments@, decoded_queries@, e);
                        }
                        return Err(e);
                    },
                }
                k = k + 1;
            }
        }
        Ok(ParsedUrl { before_query, after_query, decoded_segments, decoded_queries })
    }
}


/// What to do when a key occurs again in a query.
#[derive(Debug)]
pub enum DuplicateParamPolicy<'a> {
    /// Fail with the repeated key.
    ResultErr,
    /// Keep the value seen first.
    KeepFirst,
    /// Keep the value seen last.
    KeepLast,
    /// Join the values, in order, with the delimiter between them.
    ConcatWithDelim(&'a str),
}

/// A key that occurred twice under `DuplicateParamPolicy::ResultErr`.
#[derive(Debug)]
pub struct DupParamError(pub String);

/// `str1`, `str2` and `str3` one after the other.
fn concat(str1: &str, str2: &str, str3: &str) -> (r: String)
    ensures
        r@ == str1@ + str2@ + str3@,
{
    let mut owned_string = String::from_str(str1);
    owned_string.append(str2);
    owned_string.append(str3);
    owned_string
}

/// The position of the first entry at or after `i` whose key is `k`, or -1.
pub open spec fn index_from(es: Seq<(Seq<char>, Seq<char>)>, k: Seq<char>, i: int) -> int
    decreases es.len() + 1 - i,
{
    if i < 0 || i >= es.len() {
        -1
    } else if es[i].0 == k {
        i
    } else {
        index_from(es, k, i + 1)
    }
}

/// The position of the entry whose key is `k`, or -1.
pub open spec fn key_index(es: Seq<(Seq<char>, Seq<char>)>, k: Seq<char>) -> int {
    index_from(es, k, 0)
}

proof fn lemma_index_from(es: Seq<(Seq<char>, Seq<char>)>, k: Seq<char>, i: int)
    requires
        0 <= i,
    ensures
        index_from(es, k, i) == -1 || (i <= index_from(es, k, i) < es.len() && es[index_from(
            es,
            k,
            i,
        )].0 == k),
    decreases es.len() + 1 - i,
{
    if i < es.len() && es[i].0 != k {
        lemma_index_from(es, k, i + 1);
    }
}

/// The entries after `(k, v)` is taken in under `policy`, or the repeated key.
pub open spec fn absorb(
    es: Seq<(Seq<char>, Seq<char>)>,
    k: Seq<char>,
    v: Seq<char>,
    policy: DuplicateParamPolicy,
) -> Result<Seq<(Seq<char>, Seq<char>)>, Seq<char>> {
    let i = key_index(es, k);
    if i < 0 {
        Ok(es.push((k, v)))
    } else {
        match policy {
            DuplicateParamPolicy::ResultErr => Err(k),
            DuplicateParamPolicy::KeepFirst => Ok(es),
            DuplicateParamPolicy::KeepLast => Ok(es.update(i, (k, v))),
            DuplicateParamPolicy::ConcatWithDelim(d) => Ok(es.update(i, (k, es[i].1 + d@ + v))),
        }
    }
}

/// The key-value entries of decoded query entries, in order of first
/// occurrence; an entry without a value counts as `null`.
pub open spec fn query_map_of(
    qs: Seq<(Seq<char>, Option<Seq<char>>)>,
    null: Seq<char>,
    policy: DuplicateParamPolicy,
) -> Result<Seq<(Seq<char>, Seq<char>)>, Seq<char>>
    decreases qs.len(),
{
    if qs.len() == 0 {
        Ok(Seq::empty())
    } else {
        match query_map_of(qs.drop_last(), null, policy) {
            Err(k) => Err(k),
            Ok(es) => absorb(
                es,
                qs.last().0,
                match qs.last().1 {
                    Some(v) => v,
                    None => null,
                },
                policy,
            ),
        }
    }
}

proof fn lemma_error_stays(
    qs: Seq<(Seq<char>, Option<Seq<char>>)>,
    n: int,
    null: Seq<char>,
    policy: DuplicateParamPolicy,
)
    requires
        0 <= n <= qs.len(),
        query_map_of(qs.subrange(0, n), null, policy) is Err,
    ensures
        query_map_of(qs, null, policy) == query_map_of(qs.subrange(0, n), null, policy),
    decreases qs.len(),
{
    if qs.len() == n {
        assert(qs.subrange(0, n) =~= qs);
    } else {
        assert(qs.drop_last().subrange(0, n) =~= qs.subrange(0, n));
        lemma_error_stays(qs.drop_last(), n, null, policy);
    }
}

/// The view of a decoded query entry.
pub open spec fn query_view(q: (String, Option<String>)) -> (Seq<char>, Option<Seq<char>>) {
    (
        q.0@,
        match q.1 {
            Some(v) => Some(v@),
            None => None,
        },
    )
}

/// Query parameters by key, in order of first occurrence.
#[derive(Debug)]
pub struct QueryMap<'a> {
    entries: Vec<(&'a str, String)>,
}

impl<'a> QueryMap<'a> {
    /// The keys and values, in order of first occurrence.
    pub closed spec fn view(&self) -> Seq<(Seq<char>, Seq<char>)> {
        self.entries@.map_values(|e: (&'a str, String)| (e.0@, e.1@))
    }

    fn find(&self, key: &str) -> (r: Option<usize>)
        ensures
            r matches Some(i) ==> i as int == key_index(self.view(), key@),
            r is None ==> key_index(self.view(), key@) == -1,
    {
        let ghost es = self.view();
        let mut i: usize = 0;
        while i < self.entries.len()
            invariant
                es == self.view(),
                0 <= i <= es.len(),
                es.len() == self.entries@.len(),
                key_index(es, key@) == index_from(es, key@, i as int),
            decreases es.len() - i,
        {
            if crate::routing_table::str_eq(self.entries[i].0, key) {
                assert(es[i as int].0 == key@);
                return Some(i);
            }
            assert(es[i as int].0 != key@);
            i = i + 1;
        }
        None
    }

    /// The value under `key`, if any.
    pub fn get(&self, key: &str) -> (r: Option<&String>)
        ensures
            key_index(self.view(), key@) < 0 ==> r is None,
            key_index(self.view(), key@) >= 0 ==> (r matches Some(v) && v@ == self.view()[key_index(
                self.view(),
                key@,
            )].1),
    {
        proof {
            lemma_index_from(self.view(), key@, 0);
        }
        match self.find(key) {
            Some(i) => Some(&self.entries[i].1),
            None => None,
        }
    }
}

/// A parsed URL together with its query map.
#[derive(Debug)]
pub struct ParsedUrlWithQueryMap<'a> {
    pub pu: ParsedUrl<'a>,
    pub qm: QueryMap<'a>,
}

impl<'a> ParsedUrl<'a> {
    /// The decoded query entries as a map from key to value, entries without
    /// a value taking `null_replacement`; a repeated key is handled as
    /// `dup_policy` says.
    pub fn decoded_query_map(
        &'a self,
        null_replacement: &'a str,
        dup_policy: DuplicateParamPolicy,
    ) -> (r: Result<QueryMap<'a>, DupParamError>)
        ensures
            match query_map_of(
                self.decoded_queries@.map_values(|q: (String, Option<String>)| query_view(q)),
                null_replacement@,
                dup_policy,
            ) {
                Ok(es) => r matches Ok(m) && m.view() == es,
                Err(k) => r matches Err(e) && e.0@ == k,
            },
    {
        let ghost qs = self.decoded_queries@.map_values(|q: (String, Option<String>)| query_view(q));
        let mut map = QueryMap { entries: Vec::new() };
        let mut i: usize = 0;
        assert(qs.subrange(0, 0) =~= Seq::<(Seq<char>, Option<Seq<char>>)>::empty());
        assert(map.view() =~= Seq::<(Seq<char>, Seq<char>)>::empty());
        while i < self.decoded_queries.len()
            invariant
                qs == self.decoded_queries@.map_values(|q: (String, Option<String>)| query_view(q)),
                0 <= i <= qs.len(),
                query_map_of(qs.subrange(0, i as int), null_replacement@, dup_policy) == Ok::<
                    Seq<(Seq<char>, Seq<char>)>,
                    Seq<char>,
                >(map.view()),
            decreases qs.len() - i,
        {
            let entry = &self.decoded_queries[i];
            let k: &'a str = entry.0.as_str();
            let v: &'a str = match &entry.1 {
                Some(x) => x.as_str(),
                None => null_replacement,
            };
            let ghost es = map.view();
            let ghost sub = qs.subrange(0, i + 1);
            assert(sub.drop_last() =~= qs.subrange(0, i as int));
            assert(sub.last() == qs[i as int]);
            assert(v@ == match qs[i as int].1 {
                Some(x) => x,
                None => null_replacement@,
            });
            match map.find(k) {
                Some(j) => {
                    proof {
                        lemma_index_from(es, k@, 0);
                    }
                    match dup_policy {
                        DuplicateParamPolicy::ResultErr => {
                            proof {
                                lemma_error_stays(qs, i + 1, null_replacement@, dup_policy);
                            }
                            return Err(DupParamError(entry.0.clone()));
                        },
                        DuplicateParamPolicy::KeepFirst => {},
                        DuplicateParamPolicy::KeepLast => {
                            let key = map.entries[j].0;
                            map.entries.set(j, (key, String::from_str(v)));
                            assert(map.view() =~= es.update(j as int, (k@, v@)));
                        },
                        DuplicateParamPolicy::ConcatWithDelim(delim) => {
                            let key = map.entries[j].0;
                            let joined = concat(map.entries[j].1.as_str(), delim, v);
                            map.entries.set(j, (key, joined));
                            assert(map.view() =~= es.update(j as int, (k@, es[j as int].1 + delim@ + v@)));
                        },
                    }
                },
                None => {
                    map.entries.push((k, String::from_str(v)));
                    assert(map.view() =~= es.push((k@, v@)));
                },
            }
            i = i + 1;
        }
        assert(qs.subrange(0, qs.len() as int) =~= qs);
        Ok(map)
    }
}


#[verifier::external_type_specification]
#[verifier::external_body]
pub struct ExUtf8Error(std::str::Utf8Error);

/// The value of an ASCII hexadecimal digit.
pub open spec fn hex_value(b: u8) -> Option<u8> {
    if 48 <= b <= 57 {
        Some((b - 48) as u8)
    } else if 97 <= b <= 102 {
        Some((b - 87) as u8)
    } else if 65 <= b <= 70 {
        Some((b - 55) as u8)
    } else {
        None
    }
}

/// `b` with every `%` that two hexadecimal digits follow replaced by the byte
/// they spell.
pub open spec fn percent_decoded(b: Seq<u8>) -> Seq<u8>
    decreases b.len(),
{
    if b.len() == 0 {
        Seq::empty()
    } else if b[0] == 37 && b.len() >= 3 && hex_value(b[1]) is Some && hex_value(b[2]) is Some {
        seq![(hex_value(b[1])->0 * 16 + hex_value(b[2])->0) as u8] + percent_decoded(
            b.subrange(3, b.len() as int),
        )
    } else {
        seq![b[0]] + percent_decoded(b.drop_first())
    }
}

/// The text that the percent-encoded bytes `p` stand for, if it is valid UTF-8.
pub open spec fn decoded_piece(p: Seq<u8>) -> Option<Seq<char>> {
    if valid_utf8(percent_decoded(p)) {
        Some(decode_utf8(percent_decoded(p)))
    } else {
        None
    }
}

/// Relies on `percent_encoding::percent_decode_str` and
/// `PercentDecode::decode_utf8`: each `%` followed by two hexadecimal digits
/// becomes the byte they spell, other bytes stay, and the bytes are then read
/// as UTF-8, failing where they are not valid UTF-8.
#[verifier::external_body]
fn percent_decode_utf8(s: &str) -> (r: Result<String, std::str::Utf8Error>)
    ensures
        r is Ok <==> valid_utf8(percent_decoded(s.spec_bytes())),
        r matches Ok(v) ==> v@ == decode_utf8(percent_decoded(s.spec_bytes())),
{
    percent_encoding::percent_decode_str(s).decode_utf8().map(String::from)
}

/// Percent-decoded text that is not valid UTF-8.
#[derive(Debug)]
pub struct NotUtf8;

/// Percent-decodes one URL component.
pub fn decode_url(url: &str) -> (r: Result<String, NotUtf8>)
    ensures
        match decoded_piece(url.spec_bytes()) {
            Some(t) => r matches Ok(v) && v@ == t,
            None => r is Err,
        },
{
    match percent_decode_utf8(url) {
        Ok(v) => Ok(v),
        Err(_) => Err(NotUtf8),
    }
}

/// Every segment and every key and value of the query of `u` decodes.
pub open spec fn all_pieces_decode(u: Seq<u8>) -> bool {
    &&& forall|i: int|
        0 <= i < segments_of(u).len() ==> (#[trigger] decoded_piece(segments_of(u)[i])) is Some
    &&& forall|i: int|
        0 <= i < entries_of(u).len() ==> {
            &&& decoded_piece(before_first(#[trigger] entries_of(u)[i], "=".spec_bytes())) is Some
            &&& after_first(entries_of(u)[i], "=".spec_bytes()) matches Some(v) ==> decoded_piece(
                v,
            ) is Some
        }
}

/// Parses `raw_url`, percent-decoding each segment and each key and value.
pub fn parse_url(raw_url: &str) -> (r: Result<ParsedUrl<'_>, NotUtf8>)
    ensures
        r is Ok <==> all_pieces_decode(raw_url.spec_bytes()),
        r matches Ok(pu) ==> {
            let u = raw_url.spec_bytes();
            &&& pu.before_query.spec_bytes() == before_first(u, "?".spec_bytes())
            &&& match after_first(u, "?".spec_bytes()) {
                Some(a) => pu.after_query matches Some(x) && x.spec_bytes() == a,
                None => pu.after_query is None,
            }
            &&& pu.decoded_segments@.len() == segments_of(u).len()
            &&& forall|i: int|
                0 <= i < segments_of(u).len() ==> decoded_piece(segments_of(u)[i]) == Some(
                    (#[trigger] pu.decoded_segments@[i])@,
                )
            &&& pu.decoded_queries@.len() == entries_of(u).len()
            &&& forall|i: int|
                0 <= i < entries_of(u).len() ==> {
                    let e = entries_of(u)[i];
                    let q = #[trigger] pu.decoded_queries@[i];
                    &&& decoded_piece(before_first(e, "=".spec_bytes())) == Some(q.0@)
                    &&& match after_first(e, "=".spec_bytes()) {
                        Some(v) => q.1 matches Some(dv) && decoded_piece(v) == Some(dv@),
                        None => q.1 is None,
                    }
                }
        },
{
    let r = ParsedUrl::parse_new(raw_url, decode_url);
    proof {
        let u = raw_url.spec_bytes();
        if r is Ok {
            let pu = r->Ok_0;
            {
                assert forall|i: int|
                    0 <= i < segments_of(u).len() implies decoded_piece(segments_of(u)[i]) == Some(
                    (#[trigger] pu.decoded_segments@[i])@,
                ) by {
                    assert(decodes_to(decode_url, segments_of(u)[i], Ok(pu.decoded_segments@[i])));
                }
                assert forall|i: int| 0 <= i < entries_of(u).len() implies {
                    let e = entries_of(u)[i];
                    let q = #[trigger] pu.decoded_queries@[i];
                    &&& decoded_piece(before_first(e, "=".spec_bytes())) == Some(q.0@)
                    &&& match after_first(e, "=".spec_bytes()) {
                        Some(v) => q.1 matches Some(dv) && decoded_piece(v) == Some(dv@),
                        None => q.1 is None,
                    }
                } by {
                    assert(entry_decodes_to(decode_url, entries_of(u)[i], pu.decoded_queries@[i]));
                }
                assert forall|i: int| 0 <= i < segments_of(u).len() implies (#[trigger] decoded_piece(
                    segments_of(u)[i],
                )) is Some by {
                    assert(decoded_piece(segments_of(u)[i]) == Some(pu.decoded_segments@[i]@));
                }
                assert forall|i: int| 0 <= i < entries_of(u).len() implies {
                    &&& decoded_piece(before_first(#[trigger] entries_of(u)[i], "=".spec_bytes())) is Some
                    &&& after_first(entries_of(u)[i], "=".spec_bytes()) matches Some(v)
                        ==> decoded_piece(v) is Some
                } by {
                    assert(entry_decodes_to(decode_url, entries_of(u)[i], pu.decoded_queries@[i]));
                }
            }
        } else {
            assert(parse_fails_with(decode_url, u, r->Err_0));
        }
    }
    r
}

} // verus!
