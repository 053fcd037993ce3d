//! Escape-aware tokenizer: splits a byte string on a separator while `\`
//! (the escape byte) makes the next byte literal, whatever it is. Each token
//! reports how many escape bytes were consumed while decoding it, which is
//! what lets a caller recover the encoded length of a token
//! (`decoded length + escape count`) and so compute byte-exact error spans.

use vstd::prelude::*;

verus! {

/// The escape byte: `\`.
pub const ESCAPE: u8 = 92;

/// What `tokenize` returns, at the spec level: the decoded text of each token
/// together with the number of escape bytes consumed while decoding it.
///
/// Scanning from the front: a separator closes the (empty) first token; an
/// escape byte consumes the following byte literally (a trailing escape with
/// nothing after it is dropped); any other byte is literal. The separator
/// test comes first, so a separator equal to the escape byte would separate.
pub open spec fn spec_tokenize(s: Seq<u8>, sep: u8) -> Seq<(Seq<u8>, nat)>
    decreases s.len(),
{
    if s.len() == 0 {
        seq![(Seq::<u8>::empty(), 0nat)]
    } else if s[0] == sep {
        seq![(Seq::<u8>::empty(), 0nat)] + spec_tokenize(s.skip(1), sep)
    } else if s[0] == ESCAPE {
        if s.len() == 1 {
            seq![(Seq::<u8>::empty(), 0nat)]
        } else {
            with_front(seq![s[1]], 1, spec_tokenize(s.skip(2), sep))
        }
    } else {
        with_front(seq![s[0]], 0, spec_tokenize(s.skip(1), sep))
    }
}

/// Prepend `pre` (decoded with `k` escapes) onto the first token of `toks`.
pub open spec fn with_front(pre: Seq<u8>, k: nat, toks: Seq<(Seq<u8>, nat)>) -> Seq<(Seq<u8>, nat)> {
    toks.update(0, (pre + toks[0].0, (k + toks[0].1) as nat))
}

/// Tokenizing never yields an empty token list: even an empty input gives
/// one empty token.
pub proof fn lemma_tokenize_nonempty(s: Seq<u8>, sep: u8)
    ensures
        spec_tokenize(s, sep).len() >= 1,
    decreases s.len(),
{
    if s.len() == 0 {
    } else if s[0] == sep {
    } else if s[0] == ESCAPE {
        if s.len() > 1 {
            lemma_tokenize_nonempty(s.skip(2), sep);
        }
    } else {
        lemma_tokenize_nonempty(s.skip(1), sep);
    }
}

proof fn lemma_with_front_compose(a: Seq<u8>, j: nat, b: Seq<u8>, k: nat, toks: Seq<(Seq<u8>, nat)>)
    requires
        toks.len() >= 1,
    ensures
        with_front(a, j, with_front(b, k, toks)) == with_front(a + b, (j + k) as nat, toks),
{
    assert(a + (b + toks[0].0) =~= (a + b) + toks[0].0);
    assert(with_front(a, j, with_front(b, k, toks)) =~= with_front(a + b, (j + k) as nat, toks));
}

proof fn lemma_with_front_nil(toks: Seq<(Seq<u8>, nat)>)
    requires
        toks.len() >= 1,
    ensures
        with_front(Seq::<u8>::empty(), 0, toks) == toks,
{
    assert(Seq::<u8>::empty() + toks[0].0 =~= toks[0].0);
    assert(with_front(Seq::<u8>::empty(), 0, toks) =~= toks);
}

proof fn lemma_with_front_concat(pre: Seq<u8>, k: nat, head: (Seq<u8>, nat), rest: Seq<(Seq<u8>, nat)>)
    ensures
        with_front(pre, k, seq![head] + rest) == seq![(pre + head.0, (k + head.1) as nat)] + rest,
{
    assert(with_front(pre, k, seq![head] + rest) =~= seq![(pre + head.0, (k + head.1) as nat)] + rest);
}

/// The view of an executable token vector.
pub open spec fn abs_tokens(r: Seq<(Vec<u8>, usize)>) -> Seq<(Seq<u8>, nat)> {
    r.map_values(|p: (Vec<u8>, usize)| (p.0@, p.1 as nat))
}

/// Split `s` on `sep`, decoding escapes, and report per token how many
/// escape bytes were consumed. Order is preserved; empty tokens are
/// meaningful (a trailing separator yields a trailing empty token, and an
/// empty input yields exactly one empty token).
pub fn tokenize(s: &[u8], sep: u8) -> (r: Vec<(Vec<u8>, usize)>)
    ensures
        abs_tokens(r@) == spec_tokenize(s@, sep),
{
    let mut tokens: Vec<(Vec<u8>, usize)> = Vec::new();
    let mut token: Vec<u8> = Vec::new();
    let mut escapes: usize = 0;
    let mut i: usize = 0;
    proof {
        lemma_tokenize_nonempty(s@, sep);
        assert(s@.skip(0) =~= s@);
        lemma_with_front_nil(spec_tokenize(s@, sep));
        assert(abs_tokens(tokens@) + spec_tokenize(s@, sep) =~= spec_tokenize(s@, sep));
    }
    while i < s.len()
        invariant
            i <= s.len(),
            escapes <= i,
            spec_tokenize(s@, sep) == abs_tokens(tokens@) + with_front(
                token@,
                escapes as nat,
                spec_tokenize(s@.skip(i as int), sep),
            ),
        decreases s.len() - i,
    {
        let ghost pre = s@.skip(i as int);
        proof {
            assert(pre[0] == s@[i as int]);
        }
        let c = s[i];
        if c == sep {
            proof {
                lemma_tokenize_nonempty(s@.skip(i as int + 1), sep);
                assert(pre.skip(1) =~= s@.skip(i as int + 1));
                lemma_with_front_concat(
                    token@,
                    escapes as nat,
                    (Seq::<u8>::empty(), 0nat),
                    spec_tokenize(s@.skip(i as int + 1), sep),
                );
                assert(token@ + Seq::<u8>::empty() =~= token@);
                lemma_with_front_nil(spec_tokenize(s@.skip(i as int + 1), sep));
                assert(abs_tokens(tokens@.push((token, escapes))) =~= abs_tokens(tokens@).push(
                    (token@, escapes as nat),
                ));
                assert(abs_tokens(tokens@) + seq![(token@, escapes as nat)] + spec_tokenize(
                    s@.skip(i as int + 1),
                    sep,
                ) =~= abs_tokens(tokens@) + (seq![(token@, escapes as nat)] + spec_tokenize(
                    s@.skip(i as int + 1),
                    sep,
                )));
                assert(abs_tokens(tokens@).push((token@, escapes as nat)) =~= abs_tokens(tokens@)
                    + seq![(token@, escapes as nat)]);
            }
            tokens.push((token, escapes));
            token = Vec::new();
            escapes = 0;
            i = i + 1;
        } else if c == ESCAPE {
            if i + 1 < s.len() {
                proof {
                    assert(pre.len() >= 2);
                    assert(pre[1] == s@[i as int + 1]);
                    assert(pre.skip(2) =~= s@.skip(i as int + 2));
                    lemma_tokenize_nonempty(s@.skip(i as int + 2), sep);
                    lemma_with_front_compose(
                        token@,
                        escapes as nat,
                        seq![s@[i as int + 1]],
                        1,
                        spec_tokenize(s@.skip(i as int + 2), sep),
                    );
                    assert(token@ + seq![s@[i as int + 1]] =~= token@.push(s@[i as int + 1]));
                }
                let nxt = s[i + 1];
                token.push(nxt);
                escapes = escapes + 1;
                i = i + 2;
            } else {
                proof {
                    assert(pre.len() == 1);
                    assert(s@.skip(i as int + 1) =~= Seq::<u8>::empty());
                }
                i = i + 1;
            }
        } else {
            proof {
                assert(pre.skip(1) =~= s@.skip(i as int + 1));
                lemma_tokenize_nonempty(s@.skip(i as int + 1), sep);
                lemma_with_front_compose(
                    token@,
                    escapes as nat,
                    seq![s@[i as int]],
                    0,
                    spec_tokenize(s@.skip(i as int + 1), sep),
                );
                assert(token@ + seq![s@[i as int]] =~= token@.push(s@[i as int]));
            }
            token.push(c);
            i = i + 1;
        }
    }
    proof {
        assert(s@.skip(i as int) =~= Seq::<u8>::empty());
        assert(spec_tokenize(s@.skip(i as int), sep) == seq![(Seq::<u8>::empty(), 0nat)]);
        assert(seq![(Seq::<u8>::empty(), 0nat)] =~= seq![(Seq::<u8>::empty(), 0nat)]
            + Seq::<(Seq<u8>, nat)>::empty());
        lemma_with_front_concat(
            token@,
            escapes as nat,
            (Seq::<u8>::empty(), 0nat),
            Seq::<(Seq<u8>, nat)>::empty(),
        );
        assert(token@ + Seq::<u8>::empty() =~= token@);
        assert(seq![(token@, escapes as nat)] + Seq::<(Seq<u8>, nat)>::empty() =~= seq![
            (token@, escapes as nat),
        ]);
        assert(abs_tokens(tokens@.push((token, escapes))) =~= abs_tokens(tokens@).push(
            (token@, escapes as nat),
        ));
        assert(abs_tokens(tokens@).push((token@, escapes as nat)) =~= abs_tokens(tokens@) + seq![
            (token@, escapes as nat),
        ]);
    }
    tokens.push((token, escapes));
    tokens
}

/// Encoded length, in the original (still-encoded) input, of the first `i`
/// tokens together with their trailing separators: each token contributes
/// `decoded length + escape count + 1`. This is the offset at which token
/// `i` starts in the encoded input.
pub open spec fn prefix_enc_len(toks: Seq<(Seq<u8>, nat)>, i: int) -> int
    decreases i,
{
    if i <= 0 {
        0
    } else {
        prefix_enc_len(toks, i - 1) + toks[i - 1].0.len() + toks[i - 1].1 + 1
    }
}

pub proof fn lemma_prefix_enc_len_head(h: (Seq<u8>, nat), t: Seq<(Seq<u8>, nat)>, i: int)
    requires
        0 <= i <= t.len(),
    ensures
        prefix_enc_len(seq![h] + t, i + 1) == h.0.len() + h.1 + 1 + prefix_enc_len(t, i),
    decreases i,
{
    if i == 0 {
        assert(prefix_enc_len(seq![h] + t, 0) == 0);
        assert(prefix_enc_len(t, 0) == 0);
        assert((seq![h] + t)[0] == h);
    } else {
        lemma_prefix_enc_len_head(h, t, i - 1);
        assert((seq![h] + t)[i] == t[i - 1]);
        assert(prefix_enc_len(seq![h] + t, i + 1) == prefix_enc_len(seq![h] + t, i) + (seq![h]
            + t)[i].0.len() + (seq![h] + t)[i].1 + 1);
        assert(prefix_enc_len(t, i) == prefix_enc_len(t, i - 1) + t[i - 1].0.len() + t[i - 1].1
            + 1);
    }
}

proof fn lemma_prefix_enc_len_with_front(p: Seq<u8>, k: nat, t: Seq<(Seq<u8>, nat)>, i: int)
    requires
        t.len() >= 1,
        0 <= i <= t.len(),
    ensures
        prefix_enc_len(with_front(p, k, t), i) == prefix_enc_len(t, i) + if i >= 1 {
            p.len() + k
        } else {
            0
        },
    decreases i,
{
    if i <= 0 {
    } else if i == 1 {
        assert(prefix_enc_len(with_front(p, k, t), 0) == 0);
        assert(prefix_enc_len(t, 0) == 0);
        assert(with_front(p, k, t)[0] == (p + t[0].0, (k + t[0].1) as nat));
    } else {
        lemma_prefix_enc_len_with_front(p, k, t, i - 1);
        assert(with_front(p, k, t)[i - 1] == t[i - 1]);
        assert(prefix_enc_len(with_front(p, k, t), i) == prefix_enc_len(with_front(p, k, t), i - 1)
            + with_front(p, k, t)[i - 1].0.len() + with_front(p, k, t)[i - 1].1 + 1);
        assert(prefix_enc_len(t, i) == prefix_enc_len(t, i - 1) + t[i - 1].0.len() + t[i - 1].1
            + 1);
    }
}

/// The tokens of `s`, with their separators, take up at most `s.len() + 1`
/// encoded bytes (the `+ 1` stands for the virtual separator after the
/// final token).
pub proof fn lemma_tokenize_total_enc_len(s: Seq<u8>, sep: u8)
    ensures
        prefix_enc_len(spec_tokenize(s, sep), spec_tokenize(s, sep).len() as int) <= s.len() + 1,
    decreases s.len(),
{
    let toks = spec_tokenize(s, sep);
    if s.len() == 0 {
        assert(prefix_enc_len(toks, 0) == 0);
        assert(prefix_enc_len(toks, 1) == 1);
    } else if s[0] == sep {
        let rest = spec_tokenize(s.skip(1), sep);
        lemma_tokenize_total_enc_len(s.skip(1), sep);
        lemma_tokenize_nonempty(s.skip(1), sep);
        lemma_prefix_enc_len_head((Seq::<u8>::empty(), 0nat), rest, rest.len() as int);
    } else if s[0] == ESCAPE {
        if s.len() == 1 {
            assert(prefix_enc_len(toks, 0) == 0);
            assert(prefix_enc_len(toks, 1) == 1);
        } else {
            let rest = spec_tokenize(s.skip(2), sep);
            lemma_tokenize_total_enc_len(s.skip(2), sep);
            lemma_tokenize_nonempty(s.skip(2), sep);
            lemma_prefix_enc_len_with_front(seq![s[1]], 1, rest, rest.len() as int);
        }
    } else {
        let rest = spec_tokenize(s.skip(1), sep);
        lemma_tokenize_total_enc_len(s.skip(1), sep);
        lemma_tokenize_nonempty(s.skip(1), sep);
        lemma_prefix_enc_len_with_front(seq![s[0]], 0, rest, rest.len() as int);
    }
}

/// Each step from token `i` to token `j` advances the encoded offset by at
/// least one byte.
pub proof fn lemma_prefix_enc_len_steps(toks: Seq<(Seq<u8>, nat)>, i: int, j: int)
    requires
        0 <= i <= j <= toks.len(),
    ensures
        prefix_enc_len(toks, i) + (j - i) <= prefix_enc_len(toks, j),
    decreases j - i,
{
    if i < j {
        lemma_prefix_enc_len_steps(toks, i, j - 1);
    }
}

/// Token `i` of the tokenization of `s` lies, encoded, entirely within
/// `s`: its start offset is non-negative and its start offset plus its
/// encoded length stays within `s.len()`.
pub proof fn lemma_token_in_bounds(s: Seq<u8>, sep: u8, i: int)
    requires
        0 <= i < spec_tokenize(s, sep).len(),
    ensures
        0 <= prefix_enc_len(spec_tokenize(s, sep), i),
        prefix_enc_len(spec_tokenize(s, sep), i) + spec_tokenize(s, sep)[i].0.len()
            + spec_tokenize(s, sep)[i].1 <= s.len(),
{
    let toks = spec_tokenize(s, sep);
    lemma_tokenize_total_enc_len(s, sep);
    lemma_prefix_enc_len_steps(toks, i + 1, toks.len() as int);
    lemma_prefix_enc_len_steps(toks, 0, i);
}

/// `enc` decodes, as a single token split on `sep`, to exactly `dec`, with
/// exactly `k` escape bytes consumed: every byte of `dec` is either carried
/// over literally (and is then neither `sep` nor the escape byte in `enc`)
/// or preceded by an escape byte in `enc`. This is the shape produced by
/// replacing any characters of `dec` with escape+character, as long as every
/// embedded separator or escape byte is among the replaced ones.
pub open spec fn unescapes_to(enc: Seq<u8>, dec: Seq<u8>, k: nat, sep: u8) -> bool
    decreases enc.len(),
{
    if enc.len() == 0 {
        dec.len() == 0 && k == 0
    } else if enc[0] == sep {
        false
    } else if enc[0] == ESCAPE {
        enc.len() >= 2 && dec.len() >= 1 && dec[0] == enc[1] && k >= 1 && unescapes_to(
            enc.skip(2),
            dec.skip(1),
            (k - 1) as nat,
            sep,
        )
    } else {
        dec.len() >= 1 && dec[0] == enc[0] && unescapes_to(enc.skip(1), dec.skip(1), k, sep)
    }
}

pub proof fn lemma_tokenize_single(enc: Seq<u8>, dec: Seq<u8>, k: nat, sep: u8)
    requires
        unescapes_to(enc, dec, k, sep),
    ensures
        spec_tokenize(enc, sep) == seq![(dec, k)],
    decreases enc.len(),
{
    if enc.len() == 0 {
        assert(dec =~= Seq::<u8>::empty());
        assert(seq![(Seq::<u8>::empty(), 0nat)] =~= seq![(dec, k)]);
    } else if enc[0] == ESCAPE {
        lemma_tokenize_single(enc.skip(2), dec.skip(1), (k - 1) as nat, sep);
        assert(seq![(dec.skip(1), (k - 1) as nat)] =~= seq![((dec.skip(1), (k - 1) as nat))]
            + Seq::<(Seq<u8>, nat)>::empty());
        lemma_with_front_concat(
            seq![enc[1]],
            1,
            (dec.skip(1), (k - 1) as nat),
            Seq::<(Seq<u8>, nat)>::empty(),
        );
        assert(seq![enc[1]] + dec.skip(1) =~= dec);
        assert(seq![(dec, k)] + Seq::<(Seq<u8>, nat)>::empty() =~= seq![(dec, k)]);
    } else {
        lemma_tokenize_single(enc.skip(1), dec.skip(1), k, sep);
        assert(seq![(dec.skip(1), k)] =~= seq![((dec.skip(1), k))] + Seq::<(Seq<u8>, nat)>::empty());
        lemma_with_front_concat(
            seq![enc[0]],
            0,
            (dec.skip(1), k),
            Seq::<(Seq<u8>, nat)>::empty(),
        );
        assert(seq![enc[0]] + dec.skip(1) =~= dec);
        assert(seq![(dec, k)] + Seq::<(Seq<u8>, nat)>::empty() =~= seq![(dec, k)]);
    }
}

pub proof fn lemma_tokenize_prefix(enc: Seq<u8>, dec: Seq<u8>, k: nat, tail: Seq<u8>, sep: u8)
    requires
        unescapes_to(enc, dec, k, sep),
    ensures
        spec_tokenize(enc + seq![sep] + tail, sep) == seq![(dec, k)] + spec_tokenize(tail, sep),
    decreases enc.len(),
{
    let s = enc + seq![sep] + tail;
    if enc.len() == 0 {
        assert(s[0] == sep);
        assert(s.skip(1) =~= tail);
        assert(dec =~= Seq::<u8>::empty());
        assert(seq![(Seq::<u8>::empty(), 0nat)] + spec_tokenize(tail, sep) =~= seq![(dec, k)]
            + spec_tokenize(tail, sep));
    } else if enc[0] == ESCAPE {
        assert(s[0] == ESCAPE && s[0] != sep);
        assert(s[1] == enc[1]);
        assert(s.len() >= 2);
        assert(s.skip(2) =~= enc.skip(2) + seq![sep] + tail);
        lemma_tokenize_prefix(enc.skip(2), dec.skip(1), (k - 1) as nat, tail, sep);
        lemma_with_front_concat(
            seq![enc[1]],
            1,
            (dec.skip(1), (k - 1) as nat),
            spec_tokenize(tail, sep),
        );
        assert(seq![enc[1]] + dec.skip(1) =~= dec);
    } else {
        assert(s[0] == enc[0] && s[0] != sep && s[0] != ESCAPE);
        assert(s.skip(1) =~= enc.skip(1) + seq![sep] + tail);
        lemma_tokenize_prefix(enc.skip(1), dec.skip(1), k, tail, sep);
        lemma_with_front_concat(seq![enc[0]], 0, (dec.skip(1), k), spec_tokenize(tail, sep));
        assert(seq![enc[0]] + dec.skip(1) =~= dec);
    }
}

/// Join byte strings with a single separator byte between them.
pub open spec fn spec_join(parts: Seq<Seq<u8>>, sep: u8) -> Seq<u8>
    decreases parts.len(),
{
    if parts.len() == 0 {
        Seq::<u8>::empty()
    } else if parts.len() == 1 {
        parts[0]
    } else {
        parts[0] + seq![sep] + spec_join(parts.skip(1), sep)
    }
}

/// Law: tokenizing a string that contains no escape byte and no separator
/// yields exactly one token, equal to the input, with escape count zero.
pub proof fn lemma_tokenize_plain(s: Seq<u8>, sep: u8)
    requires
        forall|i: int| 0 <= i < s.len() ==> s[i] != sep && s[i] != ESCAPE,
    ensures
        spec_tokenize(s, sep) == seq![(s, 0nat)],
    decreases s.len(),
{
    lemma_plain_unescapes(s, sep);
    lemma_tokenize_single(s, s, 0, sep);
}

proof fn lemma_plain_unescapes(s: Seq<u8>, sep: u8)
    requires
        forall|i: int| 0 <= i < s.len() ==> s[i] != sep && s[i] != ESCAPE,
    ensures
        unescapes_to(s, s, 0, sep),
    decreases s.len(),
{
    if s.len() > 0 {
        assert(forall|i: int| 0 <= i < s.skip(1).len() ==> s.skip(1)[i] == s[i + 1]);
        lemma_plain_unescapes(s.skip(1), sep);
    }
}

/// Law: take any decoded token sequence, escape each token in any way that
/// covers its embedded separators and escape bytes (`unescapes_to` relates
/// the escaped form to the decoded text and the number of escapes
/// introduced), and join the escaped forms with the separator: tokenizing
/// the result reproduces exactly the original decoded sequence, with each
/// escape count equal to the number of escapes introduced for that token.
pub proof fn lemma_tokenize_escaped(encs: Seq<Seq<u8>>, toks: Seq<(Seq<u8>, nat)>, sep: u8)
    requires
        encs.len() == toks.len(),
        encs.len() >= 1,
        forall|i: int|
            0 <= i < encs.len() ==> unescapes_to(encs[i], #[trigger] toks[i].0, toks[i].1, sep),
    ensures
        spec_tokenize(spec_join(encs, sep), sep) == toks,
    decreases encs.len(),
{
    if encs.len() == 1 {
        lemma_tokenize_single(encs[0], toks[0].0, toks[0].1, sep);
        assert(toks[0] == (toks[0].0, toks[0].1));
        assert(seq![(toks[0].0, toks[0].1)] =~= toks);
    } else {
        assert(forall|i: int|
            0 <= i < encs.skip(1).len() ==> encs.skip(1)[i] == encs[i + 1] && #[trigger] toks.skip(
                1,
            )[i] == toks[i + 1]);
        lemma_tokenize_escaped(encs.skip(1), toks.skip(1), sep);
        lemma_tokenize_prefix(encs[0], toks[0].0, toks[0].1, spec_join(encs.skip(1), sep), sep);
        assert(toks[0] == (toks[0].0, toks[0].1));
        assert(seq![(toks[0].0, toks[0].1)] + toks.skip(1) =~= toks);
    }
}

/// Escaped form of `s` for one separator: every occurrence of `sep` or of
/// the escape byte gets an escape byte in front of it.
pub open spec fn spec_escape(s: Seq<u8>, sep: u8) -> Seq<u8>
    decreases s.len(),
{
    if s.len() == 0 {
        Seq::<u8>::empty()
    } else if s[0] == sep || s[0] == ESCAPE {
        seq![ESCAPE, s[0]] + spec_escape(s.skip(1), sep)
    } else {
        seq![s[0]] + spec_escape(s.skip(1), sep)
    }
}

/// How many escape bytes `spec_escape` introduces.
pub open spec fn spec_escape_count(s: Seq<u8>, sep: u8) -> nat
    decreases s.len(),
{
    if s.len() == 0 {
        0
    } else {
        (if s[0] == sep || s[0] == ESCAPE {
            1nat
        } else {
            0nat
        }) + spec_escape_count(s.skip(1), sep)
    }
}

/// The escaped form of `s` decodes back to `s`, consuming exactly the
/// escapes that were introduced.
pub proof fn lemma_escape_unescapes(s: Seq<u8>, sep: u8)
    requires
        sep != ESCAPE,
    ensures
        unescapes_to(spec_escape(s, sep), s, spec_escape_count(s, sep), sep),
    decreases s.len(),
{
    if s.len() > 0 {
        lemma_escape_unescapes(s.skip(1), sep);
        let e = spec_escape(s, sep);
        if s[0] == sep || s[0] == ESCAPE {
            assert(e.skip(2) =~= spec_escape(s.skip(1), sep));
        } else {
            assert(e.skip(1) =~= spec_escape(s.skip(1), sep));
        }
    }
}

proof fn lemma_escape_append(a: Seq<u8>, b: Seq<u8>, sep: u8)
    ensures
        spec_escape(a + b, sep) == spec_escape(a, sep) + spec_escape(b, sep),
    decreases a.len(),
{
    if a.len() == 0 {
        assert(a + b =~= b);
        assert(spec_escape(a, sep) + spec_escape(b, sep) =~= spec_escape(b, sep));
    } else {
        assert((a + b).skip(1) =~= a.skip(1) + b);
        lemma_escape_append(a.skip(1), b, sep);
        if a[0] == sep || a[0] == ESCAPE {
            assert(seq![ESCAPE, a[0]] + (spec_escape(a.skip(1), sep) + spec_escape(b, sep)) =~= (
            seq![ESCAPE, a[0]] + spec_escape(a.skip(1), sep)) + spec_escape(b, sep));
        } else {
            assert(seq![a[0]] + (spec_escape(a.skip(1), sep) + spec_escape(b, sep)) =~= (seq![a[0]]
                + spec_escape(a.skip(1), sep)) + spec_escape(b, sep));
        }
    }
}

/// Escape every occurrence of `sep` or of the escape byte in `s`.
pub fn escape_bytes(s: &[u8], sep: u8) -> (r: Vec<u8>)
    ensures
        r@ == spec_escape(s@, sep),
{
    let mut r: Vec<u8> = Vec::new();
    let mut i: usize = 0;
    proof {
        assert(s@.take(0) =~= Seq::<u8>::empty());
    }
    while i < s.len()
        invariant
            i <= s.len(),
            r@ == spec_escape(s@.take(i as int), sep),
        decreases s.len() - i,
    {
        let c = s[i];
        proof {
            assert(s@.take(i as int + 1) =~= s@.take(i as int) + seq![s@[i as int]]);
            lemma_escape_append(s@.take(i as int), seq![s@[i as int]], sep);
            assert(seq![s@[i as int]].skip(1) =~= Seq::<u8>::empty());
            assert(spec_escape(Seq::<u8>::empty(), sep) =~= Seq::<u8>::empty());
            assert(seq![ESCAPE, s@[i as int]] + Seq::<u8>::empty() =~= seq![ESCAPE, s@[i as int]]);
            assert(seq![s@[i as int]] + Seq::<u8>::empty() =~= seq![s@[i as int]]);
            if s@[i as int] == sep || s@[i as int] == ESCAPE {
                assert(spec_escape(seq![s@[i as int]], sep) =~= seq![ESCAPE, s@[i as int]]);
                assert(r@ + seq![ESCAPE, s@[i as int]] =~= r@.push(ESCAPE).push(s@[i as int]));
            } else {
                assert(spec_escape(seq![s@[i as int]], sep) =~= seq![s@[i as int]]);
                assert(r@ + seq![s@[i as int]] =~= r@.push(s@[i as int]));
            }
        }
        if c == sep || c == ESCAPE {
            r.push(ESCAPE);
            r.push(c);
        } else {
            r.push(c);
        }
        i = i + 1;
    }
    proof {
        assert(s@.take(i as int) =~= s@);
    }
    r
}

} // verus!
