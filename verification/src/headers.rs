//! Parsing of the comma-separated `key=value` header list that configures
//! transport metadata for the export pipeline. Parsing is pure text work
//! and happens here; reading the environment and validating the keys
//! against the transport's rules is the exporter runtime's business.

use vstd::prelude::*;

use crate::text::chars_to_string;

verus! {

/// Whether tonic accepts a piece of text as a metadata key.
pub uninterp spec fn metadata_key_accepts(key: Seq<char>) -> bool;

/// Whether tonic accepts a piece of text as a metadata value.
pub uninterp spec fn metadata_value_accepts(value: Seq<char>) -> bool;

/// Relies on tonic's `AsciiMetadataKey::from_bytes`: whether the text is
/// accepted as a metadata key is a function of the text alone.
#[verifier::external_body]
fn metadata_key_ok(s: &str) -> (r: bool)
    ensures
        r == metadata_key_accepts(s@),
{
    tonic::metadata::AsciiMetadataKey::from_bytes(s.as_bytes()).is_ok()
}

/// Relies on tonic's `AsciiMetadataValue::try_from` on bytes: whether the
/// text is accepted as a metadata value is a function of the text alone.
#[verifier::external_body]
fn metadata_value_ok(s: &str) -> (r: bool)
    ensures
        r == metadata_value_accepts(s@),
{
    tonic::metadata::AsciiMetadataValue::try_from(s.as_bytes()).is_ok()
}

/// The index of the first occurrence of `c` in `s`, or `s.len()` if `c`
/// does not occur.
pub open spec fn find_first(s: Seq<char>, c: char) -> int
    decreases s.len(),
{
    if s.len() == 0 {
        0
    } else if s[0] == c {
        0
    } else {
        1 + find_first(s.drop_first(), c)
    }
}

/// `find_first` stays within the sequence.
pub proof fn lemma_find_first_bounds(s: Seq<char>, c: char)
    ensures
        0 <= find_first(s, c) <= s.len(),
    decreases s.len(),
{
    if s.len() != 0 && s[0] != c {
        lemma_find_first_bounds(s.drop_first(), c);
    }
}

/// The comma-separated parts of a character sequence, in order. Every
/// part is kept, even an empty one: field positions matter to callers.
pub open spec fn split_commas(s: Seq<char>) -> Seq<Seq<char>>
    decreases s.len(),
    via split_commas_decreases
{
    let i = find_first(s, ',');
    if i >= s.len() {
        seq![s]
    } else {
        seq![s.take(i)] + split_commas(s.skip(i + 1))
    }
}

#[via_fn]
proof fn split_commas_decreases(s: Seq<char>) {
    lemma_find_first_bounds(s, ',');
}

/// The key/value reading of one part: the text before the first `=` and
/// the text after it. A part with no `=` is not a header and is dropped.
pub open spec fn kv_of_part(part: Seq<char>) -> Option<(Seq<char>, Seq<char>)> {
    let e = find_first(part, '=');
    if e >= part.len() {
        None
    } else {
        Some((part.take(e), part.skip(e + 1)))
    }
}

/// The key/value pairs of a part list, in order, dropping parts with no
/// `=`.
pub open spec fn pairs_of_parts(parts: Seq<Seq<char>>) -> Seq<(Seq<char>, Seq<char>)>
    decreases parts.len(),
{
    if parts.len() == 0 {
        Seq::empty()
    } else {
        (match kv_of_part(parts[0]) {
            Some(p) => seq![p],
            None => Seq::empty(),
        }) + pairs_of_parts(parts.drop_first())
    }
}

/// The header pairs encoded in a comma-separated `key=value` list.
pub open spec fn header_pairs(s: Seq<char>) -> Seq<(Seq<char>, Seq<char>)> {
    pairs_of_parts(split_commas(s))
}

/// The views of parsed header pairs.
pub open spec fn pairs_view(ps: Seq<(Vec<char>, Vec<char>)>) -> Seq<(Seq<char>, Seq<char>)> {
    ps.map_values(|p: (Vec<char>, Vec<char>)| (p.0@, p.1@))
}

/// Find the first occurrence of `c` in `v[from..until]`, returning its
/// index in `v`, or `until` when there is none.
fn find_in(v: &Vec<char>, from: usize, until: usize, c: char) -> (i: usize)
    requires
        from <= until <= v.len(),
    ensures
        from <= i <= until,
        i - from == find_first(v@.subrange(from as int, until as int), c),
{
    let mut i = from;
    while i < until && v[i] != c
        invariant
            from <= i <= until <= v.len(),
            find_first(v@.subrange(from as int, until as int), c) == (i - from) + find_first(
                v@.subrange(i as int, until as int),
                c,
            ),
        decreases until - i,
    {
        proof {
            let cur = v@.subrange(i as int, until as int);
            assert(cur[0] == v@[i as int]);
            assert(cur.drop_first() =~= v@.subrange(i as int + 1, until as int));
        }
        i += 1;
    }
    proof {
        let cur = v@.subrange(i as int, until as int);
        if i < until {
            assert(cur[0] == v@[i as int]);
        } else {
            assert(cur =~= Seq::<char>::empty());
        }
        assert(find_first(cur, c) == 0);
    }
    i
}

/// Copy `v[from..until]` into an owned vector.
fn copy_range(v: &Vec<char>, from: usize, until: usize) -> (r: Vec<char>)
    requires
        from <= until <= v.len(),
    ensures
        r@ == v@.subrange(from as int, until as int),
{
    let mut r: Vec<char> = Vec::new();
    let mut i = from;
    while i < until
        invariant
            from <= i <= until <= v.len(),
            r@ == v@.subrange(from as int, i as int),
        decreases until - i,
    {
        r.push(v[i]);
        i += 1;
        proof {
            assert(r@ =~= v@.subrange(from as int, i as int));
        }
    }
    r
}

/// Parse a comma-separated `key=value` list into its header pairs, in
/// order. A part without `=` is dropped; everything else — empty keys,
/// empty values, repeated keys — is handed through for the transport to
/// judge.
pub fn parse_header_pairs(v: &Vec<char>) -> (r: Vec<(Vec<char>, Vec<char>)>)
    requires
        v@.len() < usize::MAX,
    ensures
        pairs_view(r@) == header_pairs(v@),
{
    let mut out: Vec<(Vec<char>, Vec<char>)> = Vec::new();
    let mut pos: usize = 0;
    proof {
        assert(v@.skip(0) =~= v@);
    }
    while pos <= v.len()
        invariant
            v@.len() < usize::MAX,
            pos <= v.len() + 1,
            pos <= v.len() ==> pairs_view(out@) + pairs_of_parts(
                split_commas(v@.skip(pos as int)),
            ) == header_pairs(v@),
            pos == v.len() + 1 ==> pairs_view(out@) == header_pairs(v@),
        decreases v.len() + 1 - pos,
    {
        let k = find_in(v, pos, v.len(), ',');
        let e = find_in(v, pos, k, '=');
        let ghost out0 = out@;
        if e < k {
            let key = copy_range(v, pos, e);
            let val = copy_range(v, e + 1, k);
            out.push((key, val));
        }
        proof {
            let rest = v@.skip(pos as int);
            assert(rest =~= v@.subrange(pos as int, v@.len() as int));
            assert(find_first(rest, ',') == k - pos);
            let part = v@.subrange(pos as int, k as int);
            assert(rest.take(k - pos) =~= part);
            let parts = split_commas(rest);
            assert(find_first(part, '=') == e - pos);
            let kv_seq: Seq<(Seq<char>, Seq<char>)> = if e < k {
                seq![
                    (
                        v@.subrange(pos as int, e as int),
                        v@.subrange(e as int + 1, k as int),
                    ),
                ]
            } else {
                Seq::empty()
            };
            if e < k {
                assert(part.take(e - pos) =~= v@.subrange(pos as int, e as int));
                assert(part.skip(e - pos + 1) =~= v@.subrange(e as int + 1, k as int));
                assert(kv_of_part(part) == Some(kv_seq[0]));
                assert(pairs_view(out@) =~= pairs_view(out0) + kv_seq);
            } else {
                lemma_find_first_bounds(part, '=');
                assert(kv_of_part(part) is None);
                assert(pairs_view(out@) =~= pairs_view(out0) + kv_seq);
            }
            if k < v.len() {
                let tail = split_commas(v@.skip(k as int + 1));
                assert(rest.skip(k - pos + 1) =~= v@.skip(k as int + 1));
                assert(parts == seq![part] + tail);
                assert(parts[0] == part);
                assert(parts.drop_first() =~= tail);
                assert(pairs_of_parts(parts) == kv_seq + pairs_of_parts(tail));
                assert(pairs_view(out@) + pairs_of_parts(tail) =~= pairs_view(out0)
                    + pairs_of_parts(parts));
            } else {
                assert(rest =~= part);
                assert(parts == seq![part]);
                assert(parts[0] == part);
                assert(parts.drop_first() =~= Seq::<Seq<char>>::empty());
                assert(pairs_of_parts(Seq::<Seq<char>>::empty()) == Seq::<(
                    Seq<char>,
                    Seq<char>,
                )>::empty());
                assert(pairs_of_parts(parts) =~= kv_seq);
                assert(pairs_view(out@) =~= pairs_view(out0) + pairs_of_parts(parts));
                assert(pairs_view(out@) =~= header_pairs(v@));
            }
        }
        pos = k + 1;
    }
    proof {
        assert(pos == v.len() + 1);
    }
    out
}

/// The header pairs the transport accepts: exactly those whose key and
/// value its metadata types validate, in order.
pub open spec fn accepted_pairs(pairs: Seq<(Seq<char>, Seq<char>)>) -> Seq<(Seq<char>, Seq<char>)> {
    pairs.filter(
        |p: (Seq<char>, Seq<char>)| metadata_key_accepts(p.0) && metadata_value_accepts(p.1),
    )
}

/// The views of validated header pairs.
pub open spec fn string_pairs_view(ps: Seq<(String, String)>) -> Seq<(Seq<char>, Seq<char>)> {
    ps.map_values(|p: (String, String)| (p.0@, p.1@))
}

/// Parse a comma-separated `key=value` list and keep exactly the pairs the
/// transport's metadata types accept, in order: the metadata the export
/// pipeline is configured with.
pub fn tracer_headers(v: &Vec<char>) -> (r: Vec<(String, String)>)
    requires
        v@.len() < usize::MAX,
    ensures
        string_pairs_view(r@) == accepted_pairs(header_pairs(v@)),
{
    let pairs = parse_header_pairs(v);
    let mut out: Vec<(String, String)> = Vec::new();
    let mut i: usize = 0;
    proof {
        reveal(Seq::filter);
        assert(pairs_view(pairs@).take(0) =~= Seq::<(Seq<char>, Seq<char>)>::empty());
        assert(string_pairs_view(out@) =~= accepted_pairs(pairs_view(pairs@).take(0)));
    }
    while i < pairs.len()
        invariant
            i <= pairs.len(),
            pairs_view(pairs@) == header_pairs(v@),
            string_pairs_view(out@) == accepted_pairs(pairs_view(pairs@).take(i as int)),
        decreases pairs.len() - i,
    {
        let key = chars_to_string(&pairs[i].0);
        let value = chars_to_string(&pairs[i].1);
        if metadata_key_ok(key.as_str()) && metadata_value_ok(value.as_str()) {
            out.push((key, value));
        }
        i += 1;
        proof {
            reveal(Seq::filter);
            let pv = pairs_view(pairs@);
            assert(pv.take(i as int).drop_last() =~= pv.take(i - 1));
            assert(pv.take(i as int).last() == pv[i - 1]);
            assert(string_pairs_view(out@) =~= accepted_pairs(pv.take(i as int)));
        }
    }
    proof {
        assert(pairs_view(pairs@).take(pairs@.len() as int) =~= pairs_view(pairs@));
    }
    out
}

} // verus!
