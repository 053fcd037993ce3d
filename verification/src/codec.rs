//! Encoding side of the format, and the round-trip laws: a list of byte
//! strings (or a map of key/value pairs) can be encoded with its embedded
//! separators and escape bytes escaped, and decoding the encoded text
//! gives back exactly what was encoded.

use vstd::prelude::*;

use crate::decode::{
    spec_lookup, spec_parse_list_from, spec_parse_map_from, BCFValue, BcfMap, SpecErr, Text, COMMA,
    PIPE,
};
use crate::tokenizer::{
    escape_bytes, lemma_escape_unescapes, lemma_tokenize_escaped, lemma_tokenize_prefix,
    lemma_tokenize_single, spec_escape, spec_escape_count, spec_join, spec_tokenize, unescapes_to,
};

verus! {

/// Encoded form of a list: each item with its embedded `,` and `\`
/// escaped, the escaped items joined with `,`.
pub open spec fn spec_encode_list(items: Seq<Seq<u8>>) -> Seq<u8> {
    spec_join(items.map_values(|s: Seq<u8>| spec_escape(s, COMMA)), COMMA)
}

/// The inner text of one encoded map entry, before the list-level escape:
/// key and value each with embedded `|` and `\` escaped, joined with `|`.
pub open spec fn spec_entry_inner(k: Seq<u8>, v: Seq<u8>) -> Seq<u8> {
    spec_escape(k, PIPE) + seq![PIPE] + spec_escape(v, PIPE)
}

/// Encoded form of one map entry: the inner text escaped once more for
/// the `,` level (so an embedded `|` survives both tokenizing passes).
pub open spec fn spec_encode_entry(k: Seq<u8>, v: Seq<u8>) -> Seq<u8> {
    spec_escape(spec_entry_inner(k, v), COMMA)
}

/// Encoded form of a map: the encoded entries joined with `,`.
pub open spec fn spec_encode_map(pairs: Seq<(Seq<u8>, Seq<u8>)>) -> Seq<u8> {
    spec_join(pairs.map_values(|p: (Seq<u8>, Seq<u8>)| spec_encode_entry(p.0, p.1)), COMMA)
}

/// Join already-encoded parts with a separator byte.
fn join_with(parts: &Vec<Vec<u8>>, sep: u8) -> (r: Vec<u8>)
    ensures
        r@ == spec_join(parts.deep_view(), sep),
{
    let ghost m = parts.deep_view();
    let mut r: Vec<u8> = Vec::new();
    let mut i: usize = 0;
    while i < parts.len()
        invariant
            i <= parts@.len(),
            m == parts.deep_view(),
            m.len() == parts@.len(),
            if i == 0 {
                r@.len() == 0 && r@ == Seq::<u8>::empty()
            } else if i < m.len() {
                spec_join(m, sep) == r@ + seq![sep] + spec_join(m.skip(i as int), sep)
            } else {
                spec_join(m, sep) == r@
            },
        decreases parts@.len() - i,
    {
        proof {
            assert(m[i as int] == parts@[i as int].deep_view());
            if i > 0 {
                assert(m.skip(i as int)[0] == m[i as int]);
                assert(m.skip(i as int).skip(1) =~= m.skip(i as int + 1));
            } else {
                assert(m.skip(0) =~= m);
                assert(m[0] == m.skip(0)[0]);
                assert(m.skip(1) =~= m.skip(0).skip(1));
            }
        }
        if i > 0 {
            r.push(sep);
        }
        let mut part = parts[i].clone();
        proof {
            assert(part@ == parts@[i as int]@);
        }
        r.append(&mut part);
        proof {
            if i + 1 < parts.len() {
                assert(spec_join(m.skip(i as int), sep) == m[i as int] + seq![sep] + spec_join(
                    m.skip(i as int + 1),
                    sep,
                ));
            } else {
                assert(m.skip(i as int).len() == 1);
                assert(spec_join(m.skip(i as int), sep) == m[i as int]);
            }
        }
        i = i + 1;
    }
    proof {
        if m.len() == 0 {
            assert(spec_join(m, sep) == Seq::<u8>::empty());
            assert(r@ =~= spec_join(m, sep));
        }
    }
    r
}

/// Encode a list of byte strings: escape each item's embedded `,` and
/// `\`, join with `,`. Decoding the result as a list of texts gives the
/// items back (`lemma_list_round_trip`).
pub fn encode_list(items: &Vec<Vec<u8>>) -> (r: Vec<u8>)
    ensures
        r@ == spec_encode_list(items.deep_view()),
{
    let ghost m = items.deep_view().map_values(|s: Seq<u8>| spec_escape(s, COMMA));
    let mut escaped: Vec<Vec<u8>> = Vec::new();
    let mut i: usize = 0;
    while i < items.len()
        invariant
            i <= items@.len(),
            m == items.deep_view().map_values(|s: Seq<u8>| spec_escape(s, COMMA)),
            m.len() == items@.len(),
            escaped@.len() == i,
            forall|j: int| 0 <= j < i ==> (#[trigger] escaped@[j])@ == m[j],
        decreases items@.len() - i,
    {
        let e = escape_bytes(items[i].as_slice(), COMMA);
        proof {
            assert(items.deep_view()[i as int] == items@[i as int]@);
        }
        escaped.push(e);
        i = i + 1;
    }
    proof {
        assert(escaped.deep_view() =~~= m);
    }
    join_with(&escaped, COMMA)
}

/// Encode key/value pairs as a map: escape each key and value for the
/// `|` level, join them with `|`, escape the entry once more for the `,`
/// level, and join the entries with `,`. Decoding the result as a map of
/// texts gives the pairs back (`lemma_map_round_trip`).
pub fn encode_map(pairs: &Vec<(Vec<u8>, Vec<u8>)>) -> (r: Vec<u8>)
    ensures
        r@ == spec_encode_map(pairs.deep_view()),
{
    let ghost m = pairs.deep_view().map_values(
        |p: (Seq<u8>, Seq<u8>)| spec_encode_entry(p.0, p.1),
    );
    let mut encoded: Vec<Vec<u8>> = Vec::new();
    let mut i: usize = 0;
    while i < pairs.len()
        invariant
            i <= pairs@.len(),
            m == pairs.deep_view().map_values(
                |p: (Seq<u8>, Seq<u8>)| spec_encode_entry(p.0, p.1),
            ),
            m.len() == pairs@.len(),
            encoded@.len() == i,
            forall|j: int| 0 <= j < i ==> (#[trigger] encoded@[j])@ == m[j],
        decreases pairs@.len() - i,
    {
        let mut inner = escape_bytes(pairs[i].0.as_slice(), PIPE);
        inner.push(PIPE);
        let mut vpart = escape_bytes(pairs[i].1.as_slice(), PIPE);
        inner.append(&mut vpart);
        let e = escape_bytes(inner.as_slice(), COMMA);
        proof {
            assert(pairs.deep_view()[i as int] == (pairs@[i as int].0@, pairs@[i as int].1@));
            assert(spec_escape(pairs@[i as int].0@, PIPE).push(PIPE) + spec_escape(
                pairs@[i as int].1@,
                PIPE,
            ) =~= spec_entry_inner(pairs@[i as int].0@, pairs@[i as int].1@));
        }
        encoded.push(e);
        i = i + 1;
    }
    proof {
        assert(encoded.deep_view() =~~= m);
    }
    join_with(&encoded, COMMA)
}

proof fn lemma_list_from_texts(toks: Seq<(Seq<u8>, nat)>, offset: int)
    ensures
        spec_parse_list_from::<Text>(toks, offset) == Ok::<Seq<Seq<u8>>, SpecErr>(
            toks.map_values(|t: (Seq<u8>, nat)| t.0),
        ),
    decreases toks.len(),
{
    if toks.len() == 0 {
        assert(toks.map_values(|t: (Seq<u8>, nat)| t.0) =~= Seq::<Seq<u8>>::empty());
    } else {
        lemma_list_from_texts(toks.skip(1), offset + toks[0].0.len() + toks[0].1 + 1);
        assert(toks.skip(1).map_values(|t: (Seq<u8>, nat)| t.0) =~= toks.map_values(
            |t: (Seq<u8>, nat)| t.0,
        ).skip(1));
        assert(seq![toks[0].0] + toks.map_values(|t: (Seq<u8>, nat)| t.0).skip(1) =~= toks.map_values(
            |t: (Seq<u8>, nat)| t.0,
        ));
    }
}

/// Law (list round trip): encoding a non-empty sequence of byte strings
/// with `,` as separator — escaping any embedded `,` or `\` — and
/// decoding the result as a list of texts yields exactly the original
/// sequence. An empty sequence is excluded: it encodes to the empty
/// string, which decodes to one empty text rather than to no texts.
pub proof fn lemma_list_round_trip(items: Seq<Seq<u8>>)
    requires
        items.len() >= 1,
    ensures
        <Vec<Text> as BCFValue>::spec_parse(spec_encode_list(items)) == Ok::<
            Seq<Seq<u8>>,
            SpecErr,
        >(items),
{
    let m = items.map_values(|s: Seq<u8>| spec_escape(s, COMMA));
    let toks = items.map_values(|s: Seq<u8>| (s, spec_escape_count(s, COMMA)));
    assert forall|i: int| 0 <= i < m.len() implies unescapes_to(
        m[i],
        #[trigger] toks[i].0,
        toks[i].1,
        COMMA,
    ) by {
        lemma_escape_unescapes(items[i], COMMA);
    }
    lemma_tokenize_escaped(m, toks, COMMA);
    lemma_list_from_texts(toks, 0);
    assert(toks.map_values(|t: (Seq<u8>, nat)| t.0) =~= items);
}

proof fn lemma_map_from_text_pairs(pairs: Seq<(Seq<u8>, Seq<u8>)>, offset: int)
    ensures
        spec_parse_map_from::<Text, Text>(
            pairs.map_values(
                |p: (Seq<u8>, Seq<u8>)|
                    (
                        spec_entry_inner(p.0, p.1),
                        spec_escape_count(spec_entry_inner(p.0, p.1), COMMA),
                    ),
            ),
            offset,
        ) == Ok::<Seq<(Seq<u8>, Seq<u8>)>, SpecErr>(pairs),
    decreases pairs.len(),
{
    let entries = pairs.map_values(
        |p: (Seq<u8>, Seq<u8>)|
            (spec_entry_inner(p.0, p.1), spec_escape_count(spec_entry_inner(p.0, p.1), COMMA)),
    );
    if pairs.len() > 0 {
        let k = pairs[0].0;
        let v = pairs[0].1;
        lemma_escape_unescapes(k, PIPE);
        lemma_escape_unescapes(v, PIPE);
        lemma_tokenize_single(spec_escape(v, PIPE), v, spec_escape_count(v, PIPE), PIPE);
        assert(spec_entry_inner(k, v) =~= spec_escape(k, PIPE) + seq![PIPE] + spec_escape(v, PIPE));
        lemma_tokenize_prefix(
            spec_escape(k, PIPE),
            k,
            spec_escape_count(k, PIPE),
            spec_escape(v, PIPE),
            PIPE,
        );
        let parts = spec_tokenize(spec_entry_inner(k, v), PIPE);
        assert(parts =~= seq![
            (k, spec_escape_count(k, PIPE)),
            (v, spec_escape_count(v, PIPE)),
        ]);
        assert(parts.len() == 2);
        assert(parts[0].0 == k && parts[1].0 == v);
        let full_len = crate::decode::entry_full_len(spec_entry_inner(k, v));
        lemma_map_from_text_pairs(pairs.skip(1), offset + full_len + 1);
        assert(pairs.skip(1).map_values(
            |p: (Seq<u8>, Seq<u8>)|
                (
                    spec_entry_inner(p.0, p.1),
                    spec_escape_count(spec_entry_inner(p.0, p.1), COMMA),
                ),
        ) =~= entries.skip(1));
        assert(seq![(k, v)] + pairs.skip(1) =~= pairs);
    } else {
        assert(entries =~= Seq::<(Seq<u8>, nat)>::empty());
        assert(pairs =~= Seq::<(Seq<u8>, Seq<u8>)>::empty());
    }
}

/// Law (map round trip): encoding non-empty key/value pairs with `|` and
/// `,` — escaping embedded separators in keys and values — and decoding
/// the result as a map of texts yields exactly the original pairs, in
/// order; hence every lookup in the decoded map sees the original
/// mapping, and a duplicated key yields the value of its last occurrence
/// only (`spec_lookup` is last-wins).
pub proof fn lemma_map_round_trip(pairs: Seq<(Seq<u8>, Seq<u8>)>)
    requires
        pairs.len() >= 1,
    ensures
        <BcfMap<Text, Text> as BCFValue>::spec_parse(spec_encode_map(pairs)) == Ok::<
            Seq<(Seq<u8>, Seq<u8>)>,
            SpecErr,
        >(pairs),
        forall|k: Seq<u8>|
            #[trigger] spec_lookup(
                <BcfMap<Text, Text> as BCFValue>::spec_parse(spec_encode_map(pairs))->Ok_0,
                k,
            ) == spec_lookup(pairs, k),
{
    let m = pairs.map_values(|p: (Seq<u8>, Seq<u8>)| spec_encode_entry(p.0, p.1));
    let toks = pairs.map_values(
        |p: (Seq<u8>, Seq<u8>)|
            (spec_entry_inner(p.0, p.1), spec_escape_count(spec_entry_inner(p.0, p.1), COMMA)),
    );
    assert forall|i: int| 0 <= i < m.len() implies unescapes_to(
        m[i],
        #[trigger] toks[i].0,
        toks[i].1,
        COMMA,
    ) by {
        lemma_escape_unescapes(spec_entry_inner(pairs[i].0, pairs[i].1), COMMA);
    }
    lemma_tokenize_escaped(m, toks, COMMA);
    lemma_map_from_text_pairs(pairs, 0);
}

} // verus!