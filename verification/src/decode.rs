//! Typed value decoding: a capability (`BCFValue`) that a result type
//! implements — decode myself from a byte slice, or fail with a byte span
//! relative to that slice. Built-in decoders cover unsigned integers, plain
//! text, ordered lists (split on `,`) and key/value maps (split on `,` and
//! `|`), with exact span translation through the compound decoders.

use vstd::prelude::*;

use crate::tokenizer::prefix_enc_len;

verus! {

/// The list separator: `,`.
pub const COMMA: u8 = 44;

/// The key/value separator inside a map entry: `|`.
pub const PIPE: u8 = 124;

/// A half-open byte range `[start, end)` locating a decode failure,
/// relative to the slice that was being decoded when the failure arose.
#[derive(Debug, Clone, PartialEq, Eq)]
pub struct Span {
    pub start: usize,
    pub end: usize,
}

/// A decode failure: a span relative to the slice under decode, and a
/// description of what went wrong.
#[derive(Debug, Clone)]
pub struct BCFParseError {
    pub span: Span,
    pub error: String,
}

pub type BCFParseResult<T> = Result<T, BCFParseError>;

/// Spec-level decode failure: the span as unbounded integers plus the
/// message text.
pub struct SpecErr {
    pub start: int,
    pub end: int,
    pub msg: Seq<char>,
}

/// The executable result `r` returns exactly what the spec-level decode
/// `s` describes: same value on success, same span and message on failure.
pub open spec fn matches_spec<T: DeepView>(r: BCFParseResult<T>, s: Result<T::V, SpecErr>) -> bool {
    match r {
        Ok(v) => s == Ok::<T::V, SpecErr>(v.deep_view()),
        Err(e) => match s {
            Ok(_) => false,
            Err(se) => e.span.start == se.start && e.span.end == se.end && e.error@ == se.msg,
        },
    }
}

/// A type that can decode itself from a slice of BCF value text.
///
/// `spec_parse` says what decoding means for the type; `parse_bcf` is the
/// executable decoder and is proved to return exactly that. Failure spans
/// are relative to `value` and never reach past its end, so compound
/// decoders can translate them outward without overflow.
pub trait BCFValue: Sized + DeepView {
    /// The meaning of decoding `s` as this type.
    spec fn spec_parse(s: Seq<u8>) -> Result<Self::V, SpecErr>;

    /// Decode `value`, or fail with a byte span relative to `value`.
    ///
    /// The length bound is a machine limit: it keeps every span translation
    /// inside `usize`. The span bound is loose because the map decoder's
    /// span arithmetic can reach slightly past the end of the entry text.
    fn parse_bcf(value: &[u8]) -> (r: BCFParseResult<Self>)
        requires
            value@.len() <= usize::MAX / 4,
        ensures
            matches_spec(r, Self::spec_parse(value@)),
            r matches Err(e) ==> e.span.start <= e.span.end <= 3 * value@.len() + 3,
    ;
}

/// Plain text: decoding always succeeds and returns the bytes verbatim.
/// (Callers pre-apply unescaping where relevant: the list and map decoders
/// hand each decoded token to the element decoder.)
#[derive(Debug, Clone, PartialEq, Eq)]
pub struct Text(pub Vec<u8>);

impl View for Text {
    type V = Seq<u8>;

    open spec fn view(&self) -> Seq<u8> {
        self.0@
    }
}

impl DeepView for Text {
    type V = Seq<u8>;

    open spec fn deep_view(&self) -> Seq<u8> {
        self.0@
    }
}

impl BCFValue for Text {
    open spec fn spec_parse(s: Seq<u8>) -> Result<Seq<u8>, SpecErr> {
        Ok(s)
    }

    fn parse_bcf(value: &[u8]) -> (r: BCFParseResult<Self>) {
        Ok(Text(vstd::slice::slice_to_vec(value)))
    }
}

/// An ASCII decimal digit.
pub open spec fn is_digit(b: u8) -> bool {
    48 <= b <= 57
}

pub open spec fn all_digits(s: Seq<u8>) -> bool {
    forall|i: int| 0 <= i < s.len() ==> is_digit(#[trigger] s[i])
}

/// Value of a digit string, most significant digit first.
pub open spec fn dec_val(s: Seq<u8>) -> int
    decreases s.len(),
{
    if s.len() == 0 {
        0
    } else {
        dec_val(s.drop_last()) * 10 + s.last() - 48
    }
}

/// The numeric reading of `s` as an unsigned decimal: an optional leading
/// `+`, then at least one digit. `None` when the shape is wrong; the
/// (unbounded) value when it is right.
pub open spec fn plus_trimmed(s: Seq<u8>) -> Seq<u8> {
    if s.len() > 0 && s[0] == 43 {
        s.skip(1)
    } else {
        s
    }
}

pub open spec fn spec_dec_value(s: Seq<u8>) -> Option<int> {
    let t = plus_trimmed(s);
    if t.len() > 0 && all_digits(t) {
        Some(dec_val(t))
    } else {
        None
    }
}

pub proof fn lemma_dec_val_nonneg(s: Seq<u8>)
    requires
        all_digits(s),
    ensures
        dec_val(s) >= 0,
    decreases s.len(),
{
    if s.len() > 0 {
        assert(all_digits(s.drop_last()));
        lemma_dec_val_nonneg(s.drop_last());
    }
}

proof fn lemma_dec_val_mono(s: Seq<u8>, j: int)
    requires
        all_digits(s),
        0 <= j <= s.len(),
    ensures
        dec_val(s.take(j)) <= dec_val(s),
    decreases s.len() - j,
{
    assert(all_digits(s.take(j)));
    if j < s.len() {
        lemma_dec_val_mono(s, j + 1);
        assert(s.take(j + 1).drop_last() =~= s.take(j));
        assert(s.take(j + 1).last() == s[j]);
        lemma_dec_val_nonneg(s.take(j));
        assert(dec_val(s.take(j)) * 10 >= dec_val(s.take(j))) by (nonlinear_arith)
            requires
                dec_val(s.take(j)) >= 0,
        ;
    } else {
        assert(s.take(j) =~= s);
    }
}

/// Parse an unsigned decimal (optional leading `+`, then digits), failing
/// on any other shape and on values above `u64::MAX`.
pub fn parse_u64_digits(s: &[u8]) -> (r: Option<u64>)
    ensures
        match spec_dec_value(s@) {
            Some(v) => if v <= u64::MAX {
                r == Some(v as u64)
            } else {
                r is None
            },
            None => r is None,
        },
{
    let mut start: usize = 0;
    if s.len() > 0 && s[0] == 43 {
        start = 1;
    }
    let ghost t = plus_trimmed(s@);
    if start >= s.len() {
        proof {
            assert(t.len() == 0);
        }
        return None;
    }
    let mut v: u64 = 0;
    let mut j: usize = start;
    proof {
        assert(t.take(0) =~= Seq::<u8>::empty());
    }
    while j < s.len()
        invariant
            start <= j <= s.len(),
            start <= 1,
            t == plus_trimmed(s@),
            t =~= s@.skip(start as int),
            all_digits(t.take(j - start)),
            v == dec_val(t.take(j - start)),
        decreases s.len() - j,
    {
        let c = s[j];
        proof {
            assert(t[j - start] == s@[j as int]);
        }
        if c < 48 || c > 57 {
            proof {
                assert(!is_digit(t[j - start]));
                assert(!all_digits(t));
            }
            return None;
        }
        let d = c - 48;
        proof {
            assert(t.take(j - start + 1).drop_last() =~= t.take(j - start));
            assert(t.take(j - start + 1).last() == t[j - start]);
            assert(all_digits(t.take(j - start + 1)));
        }
        let next = match v.checked_mul(10) {
            Some(p) => p.checked_add(d as u64),
            None => None,
        };
        match next {
            Some(n) => {
                v = n;
            },
            None => {
                proof {
                    assert(dec_val(t.take(j - start + 1)) > u64::MAX);
                    if all_digits(t) {
                        lemma_dec_val_mono(t, j - start + 1);
                    }
                }
                return None;
            },
        }
        j = j + 1;
    }
    proof {
        assert(t.take(j - start) =~= t);
    }
    Some(v)
}

/// The numeric reading of `s` as a signed decimal: an optional `-` or
/// `+`, then at least one digit.
pub open spec fn spec_signed_value(s: Seq<u8>) -> Option<int> {
    if s.len() > 0 && s[0] == 45 {
        let t = s.skip(1);
        if t.len() > 0 && all_digits(t) {
            Some(-dec_val(t))
        } else {
            None
        }
    } else {
        spec_dec_value(s)
    }
}

/// Parse a signed decimal (optional `-` or `+` sign, then digits),
/// failing on any other shape and on values outside `i64`'s range.
pub fn parse_i64_digits(s: &[u8]) -> (r: Option<i64>)
    ensures
        match spec_signed_value(s@) {
            Some(v) => if i64::MIN <= v <= i64::MAX {
                r == Some(v as i64)
            } else {
                r is None
            },
            None => r is None,
        },
{
    if s.len() > 0 && s[0] == 45 {
        let ghost t = s@.skip(1);
        if s.len() > 1 && s[1] == 43 {
            proof {
                assert(t[0] == 43);
                assert(!is_digit(t[0]));
                assert(!all_digits(t));
            }
            return None;
        }
        let rest = vstd::slice::slice_subrange(s, 1, s.len());
        proof {
            assert(rest@ =~= t);
            assert(plus_trimmed(t) == t);
            if t.len() > 0 && all_digits(t) {
                lemma_dec_val_nonneg(t);
            }
        }
        match parse_u64_digits(rest) {
            Some(m) => if m <= 9223372036854775808u64 {
                if m == 9223372036854775808u64 {
                    Some(i64::MIN)
                } else {
                    Some(-(m as i64))
                }
            } else {
                None
            },
            None => None,
        }
    } else {
        proof {
            if spec_dec_value(s@) is Some {
                lemma_dec_val_nonneg(plus_trimmed(s@));
            }
        }
        match parse_u64_digits(s) {
            Some(v) => if v <= i64::MAX as u64 {
                Some(v as i64)
            } else {
                None
            },
            None => None,
        }
    }
}

/// Message used by the unsigned-integer decoders on any failure.
pub open spec fn invalid_uint_msg() -> Seq<char> {
    "invalid unsigned integer"@
}

impl BCFValue for u64 {
    open spec fn spec_parse(s: Seq<u8>) -> Result<u64, SpecErr> {
        match spec_dec_value(s) {
            Some(v) => if v <= u64::MAX {
                Ok(v as u64)
            } else {
                Err(SpecErr { start: 0, end: s.len() as int, msg: invalid_uint_msg() })
            },
            None => Err(SpecErr { start: 0, end: s.len() as int, msg: invalid_uint_msg() }),
        }
    }

    fn parse_bcf(value: &[u8]) -> (r: BCFParseResult<Self>) {
        match parse_u64_digits(value) {
            Some(v) => Ok(v),
            None => Err(
                BCFParseError {
                    span: Span { start: 0, end: value.len() },
                    error: String::from_str("invalid unsigned integer"),
                },
            ),
        }
    }
}

impl BCFValue for u16 {
    open spec fn spec_parse(s: Seq<u8>) -> Result<u16, SpecErr> {
        match spec_dec_value(s) {
            Some(v) => if v <= u16::MAX {
                Ok(v as u16)
            } else {
                Err(SpecErr { start: 0, end: s.len() as int, msg: invalid_uint_msg() })
            },
            None => Err(SpecErr { start: 0, end: s.len() as int, msg: invalid_uint_msg() }),
        }
    }

    fn parse_bcf(value: &[u8]) -> (r: BCFParseResult<Self>) {
        proof {
            if spec_dec_value(value@) is Some {
                lemma_dec_val_nonneg(plus_trimmed(value@));
            }
        }
        match parse_u64_digits(value) {
            Some(v) => if v <= u16::MAX as u64 {
                Ok(v as u16)
            } else {
                Err(
                    BCFParseError {
                        span: Span { start: 0, end: value.len() },
                        error: String::from_str("invalid unsigned integer"),
                    },
                )
            },
            None => Err(
                BCFParseError {
                    span: Span { start: 0, end: value.len() },
                    error: String::from_str("invalid unsigned integer"),
                },
            ),
        }
    }
}

/// Spec-level list decode over already-tokenized input. Each token's
/// decoded text is decoded as `T`; on a failure at token `i`, the failure's
/// span is translated into the space of the still-encoded list slice:
/// `offset` accumulates `decoded length + escape count + 1` for the tokens
/// before `i`, and the failing token's own escape count widens the end of
/// the span (escapes inflate the encoded length relative to the decoded
/// length the inner decoder saw).
pub open spec fn spec_parse_list_from<T: BCFValue>(toks: Seq<(Seq<u8>, nat)>, offset: int) -> Result<
    Seq<T::V>,
    SpecErr,
>
    decreases toks.len(),
{
    if toks.len() == 0 {
        Ok(Seq::<T::V>::empty())
    } else {
        match T::spec_parse(toks[0].0) {
            Err(e) => Err(
                SpecErr { start: e.start + offset, end: e.end + offset + toks[0].1, msg: e.msg },
            ),
            Ok(v) => match spec_parse_list_from::<T>(
                toks.skip(1),
                offset + toks[0].0.len() + toks[0].1 + 1,
            ) {
                Ok(rest) => Ok(seq![v] + rest),
                Err(e2) => Err(e2),
            },
        }
    }
}

impl<T: BCFValue> BCFValue for Vec<T> {
    /// An ordered list: tokenize on `,`, then decode every token as `T`.
    open spec fn spec_parse(s: Seq<u8>) -> Result<Seq<T::V>, SpecErr> {
        spec_parse_list_from::<T>(crate::tokenizer::spec_tokenize(s, COMMA), 0)
    }

    fn parse_bcf(value: &[u8]) -> (r: BCFParseResult<Self>) {
        let vlen = value.len();
        let toks = crate::tokenizer::tokenize(value, COMMA);
        let ghost gt = crate::tokenizer::spec_tokenize(value@, COMMA);
        let mut out: Vec<T> = Vec::new();
        let mut offset: usize = 0;
        let mut idx: usize = 0;
        proof {
            assert(gt.skip(0) =~= gt);
            crate::tokenizer::lemma_tokenize_nonempty(value@, COMMA);
            if spec_parse_list_from::<T>(gt, prefix_enc_len(gt, 0)) is Ok {
                let rest = spec_parse_list_from::<T>(gt, prefix_enc_len(gt, 0))->Ok_0;
                assert(out.deep_view() + rest =~= rest);
            }
        }
        while idx < toks.len()
            invariant
                idx <= toks.len(),
                value@.len() <= usize::MAX / 4,
                crate::tokenizer::abs_tokens(toks@) == gt,
                gt == crate::tokenizer::spec_tokenize(value@, COMMA),
                idx < toks.len() ==> offset == prefix_enc_len(gt, idx as int),
                match spec_parse_list_from::<T>(gt.skip(idx as int), prefix_enc_len(gt, idx as int)) {
                    Ok(rest) => spec_parse_list_from::<T>(gt, 0) == Ok::<Seq<T::V>, SpecErr>(
                        out.deep_view() + rest,
                    ),
                    Err(e) => spec_parse_list_from::<T>(gt, 0) == Err::<Seq<T::V>, SpecErr>(e),
                },
            decreases toks.len() - idx,
        {
            let ghost pre = gt.skip(idx as int);
            proof {
                assert(pre[0] == gt[idx as int]);
                assert(pre.skip(1) =~= gt.skip(idx as int + 1));
                assert(crate::tokenizer::abs_tokens(toks@)[idx as int] == (
                    toks@[idx as int].0@,
                    toks@[idx as int].1 as nat,
                ));
                crate::tokenizer::lemma_token_in_bounds(value@, COMMA, idx as int);
            }
            let esc: usize = toks[idx].1;
            let parsed = T::parse_bcf(toks[idx].0.as_slice());
            match parsed {
                Ok(v) => {
                    let ghost prev_deep = out.deep_view();
                    out.push(v);
                    proof {
                        assert(out.deep_view() =~= prev_deep.push(v.deep_view()));
                        assert(prev_deep.push(v.deep_view()) =~= prev_deep + seq![v.deep_view()]);
                        if spec_parse_list_from::<T>(
                            gt.skip(idx as int + 1),
                            prefix_enc_len(gt, idx as int + 1),
                        ) is Ok {
                            let rest2 = spec_parse_list_from::<T>(
                                gt.skip(idx as int + 1),
                                prefix_enc_len(gt, idx as int + 1),
                            )->Ok_0;
                            assert(prev_deep + (seq![v.deep_view()] + rest2) =~= (prev_deep + seq![
                                v.deep_view(),
                            ]) + rest2);
                        }
                    }
                    if idx + 1 < toks.len() {
                        proof {
                            crate::tokenizer::lemma_tokenize_total_enc_len(value@, COMMA);
                            crate::tokenizer::lemma_prefix_enc_len_steps(
                                gt,
                                idx as int + 1,
                                gt.len() as int,
                            );
                            assert(prefix_enc_len(gt, idx as int + 1) == prefix_enc_len(
                                gt,
                                idx as int,
                            ) + gt[idx as int].0.len() + gt[idx as int].1 + 1);
                            assert(prefix_enc_len(gt, idx as int + 1) <= value@.len());
                        }
                        offset = offset + toks[idx].0.len() + esc + 1;
                    }
                    idx = idx + 1;
                },
                Err(e) => {
                    return Err(
                        BCFParseError {
                            span: Span {
                                start: e.span.start + offset,
                                end: e.span.end + offset + esc,
                            },
                            error: e.error,
                        },
                    );
                },
            }
        }
        proof {
            assert(gt.skip(idx as int) =~= Seq::<(Seq<u8>, nat)>::empty());
            let rest = spec_parse_list_from::<T>(
                gt.skip(idx as int),
                prefix_enc_len(gt, idx as int),
            )->Ok_0;
            assert(out.deep_view() + rest =~= out.deep_view());
        }
        Ok(out)
    }
}

/// Message used by the map decoder when an entry does not split into
/// exactly a key part and a value part.
pub open spec fn invalid_pair_msg() -> Seq<char> {
    "Invalid key value pair"@
}

/// A key/value map decoded from BCF text. Entries are kept in document
/// order, duplicates included; lookups are last-wins, so a later duplicate
/// key overwrites an earlier one.
#[derive(Debug, Clone, PartialEq, Eq)]
pub struct BcfMap<K, V> {
    pub entries: Vec<(K, V)>,
}

impl<K: DeepView, V: DeepView> View for BcfMap<K, V> {
    type V = Seq<(K, V)>;

    open spec fn view(&self) -> Seq<(K, V)> {
        self.entries@
    }
}

impl<K: DeepView, V: DeepView> DeepView for BcfMap<K, V> {
    type V = Seq<(K::V, V::V)>;

    open spec fn deep_view(&self) -> Seq<(K::V, V::V)> {
        self.entries.deep_view()
    }
}

/// Last-wins lookup over an entry sequence: the value of the latest entry
/// whose key is `key`, if any.
pub open spec fn spec_lookup<KV, VV>(entries: Seq<(KV, VV)>, key: KV) -> Option<VV>
    decreases entries.len(),
{
    if entries.len() == 0 {
        None
    } else if entries.last().0 == key {
        Some(entries.last().1)
    } else {
        spec_lookup(entries.drop_last(), key)
    }
}

/// The decoded full length of a well-formed map entry: both parts'
/// decoded lengths plus both parts' escape counts (the `|` separator not
/// included).
pub open spec fn entry_full_len(pval: Seq<u8>) -> int {
    let parts = crate::tokenizer::spec_tokenize(pval, PIPE);
    parts[0].0.len() + parts[0].1 + parts[1].0.len() + parts[1].1 as int
}

/// Offset, within the decoded entry texts, at which entry `i` is taken to
/// start for span translation: each earlier entry contributes its full
/// length plus one.
pub open spec fn spec_map_offset(entries: Seq<(Seq<u8>, nat)>, i: int) -> int
    decreases i,
{
    if i <= 0 {
        0
    } else {
        spec_map_offset(entries, i - 1) + entry_full_len(entries[i - 1].0) + 1
    }
}

/// Spec-level map decode over the `,`-tokenized entries. Each entry's
/// decoded text is tokenized again on `|` and must yield exactly two
/// parts — anything else is a structural error whose span covers the whole
/// entry. The key part is decoded as `K`, the value part as `V`; either
/// failure's span is translated into the entry's offset within the map
/// slice: key failures add one for the entry-leading boundary, value
/// failures add the key part's full encoded length, its escape count, and
/// the `|` separator.
pub open spec fn spec_parse_map_from<K: BCFValue, V: BCFValue>(
    entries: Seq<(Seq<u8>, nat)>,
    offset: int,
) -> Result<Seq<(K::V, V::V)>, SpecErr>
    decreases entries.len(),
{
    if entries.len() == 0 {
        Ok(Seq::<(K::V, V::V)>::empty())
    } else {
        let pval = entries[0].0;
        let parts = crate::tokenizer::spec_tokenize(pval, PIPE);
        if parts.len() != 2 {
            Err(SpecErr { start: offset, end: offset + pval.len(), msg: invalid_pair_msg() })
        } else {
            match K::spec_parse(parts[0].0) {
                Err(e) => Err(
                    SpecErr {
                        start: e.start + offset + 1,
                        end: e.end + offset + parts[0].1 + 1,
                        msg: e.msg,
                    },
                ),
                Ok(kv) => match V::spec_parse(parts[1].0) {
                    Err(e) => Err(
                        SpecErr {
                            start: e.start + offset + parts[0].0.len() + parts[0].1 + 2,
                            end: e.end + offset + parts[0].0.len() + parts[0].1 + 2 + parts[1].1,
                            msg: e.msg,
                        },
                    ),
                    Ok(vv) => match spec_parse_map_from::<K, V>(
                        entries.skip(1),
                        offset + entry_full_len(pval) + 1,
                    ) {
                        Ok(rest) => Ok(seq![(kv, vv)] + rest),
                        Err(e2) => Err(e2),
                    },
                },
            }
        }
    }
}

impl<K: BCFValue, V: BCFValue> BCFValue for BcfMap<K, V> {
    /// A map: tokenize on `,` into entries, split each entry on `|` into
    /// exactly key text and value text, decode those as `K` and `V`.
    open spec fn spec_parse(s: Seq<u8>) -> Result<Seq<(K::V, V::V)>, SpecErr> {
        spec_parse_map_from::<K, V>(crate::tokenizer::spec_tokenize(s, COMMA), 0)
    }

    fn parse_bcf(value: &[u8]) -> (r: BCFParseResult<Self>) {
        let vlen = value.len();
        let toks = crate::tokenizer::tokenize(value, COMMA);
        let ghost gt = crate::tokenizer::spec_tokenize(value@, COMMA);
        let mut entries: Vec<(K, V)> = Vec::new();
        let mut offset: usize = 0;
        let mut idx: usize = 0;
        proof {
            assert(gt.skip(0) =~= gt);
            if spec_parse_map_from::<K, V>(gt, spec_map_offset(gt, 0)) is Ok {
                let rest = spec_parse_map_from::<K, V>(gt, spec_map_offset(gt, 0))->Ok_0;
                assert(entries.deep_view() + rest =~= rest);
            }
        }
        while idx < toks.len()
            invariant
                idx <= toks.len(),
                value@.len() <= usize::MAX / 4,
                crate::tokenizer::abs_tokens(toks@) == gt,
                gt == crate::tokenizer::spec_tokenize(value@, COMMA),
                idx < toks.len() ==> offset == spec_map_offset(gt, idx as int) && offset
                    <= prefix_enc_len(gt, idx as int) - idx,
                match spec_parse_map_from::<K, V>(gt.skip(idx as int), spec_map_offset(gt, idx as int)) {
                    Ok(rest) => spec_parse_map_from::<K, V>(gt, 0) == Ok::<
                        Seq<(K::V, V::V)>,
                        SpecErr,
                    >(entries.deep_view() + rest),
                    Err(e) => spec_parse_map_from::<K, V>(gt, 0) == Err::<
                        Seq<(K::V, V::V)>,
                        SpecErr,
                    >(e),
                },
            decreases toks.len() - idx,
        {
            let ghost pre = gt.skip(idx as int);
            proof {
                assert(pre[0] == gt[idx as int]);
                assert(pre.skip(1) =~= gt.skip(idx as int + 1));
                assert(crate::tokenizer::abs_tokens(toks@)[idx as int] == (
                    toks@[idx as int].0@,
                    toks@[idx as int].1 as nat,
                ));
                crate::tokenizer::lemma_token_in_bounds(value@, COMMA, idx as int);
            }
            let parts = crate::tokenizer::tokenize(toks[idx].0.as_slice(), PIPE);
            let ghost gparts = crate::tokenizer::spec_tokenize(gt[idx as int].0, PIPE);
            if parts.len() != 2 {
                return Err(
                    BCFParseError {
                        span: Span { start: offset, end: offset + toks[idx].0.len() },
                        error: String::from_str("Invalid key value pair"),
                    },
                );
            }
            proof {
                assert(crate::tokenizer::abs_tokens(parts@)[0] == (
                    parts@[0].0@,
                    parts@[0].1 as nat,
                ));
                assert(crate::tokenizer::abs_tokens(parts@)[1] == (
                    parts@[1].0@,
                    parts@[1].1 as nat,
                ));
                crate::tokenizer::lemma_token_in_bounds(gt[idx as int].0, PIPE, 0);
                crate::tokenizer::lemma_token_in_bounds(gt[idx as int].0, PIPE, 1);
                crate::tokenizer::lemma_tokenize_total_enc_len(gt[idx as int].0, PIPE);
                assert(prefix_enc_len(gparts, 0) == 0);
                assert(prefix_enc_len(gparts, 1) == prefix_enc_len(gparts, 0) + gparts[0].0.len()
                    + gparts[0].1 + 1);
                assert(prefix_enc_len(gparts, 2) == prefix_enc_len(gparts, 1) + gparts[1].0.len()
                    + gparts[1].1 + 1);
                assert(entry_full_len(gt[idx as int].0) + 2 <= gt[idx as int].0.len() + 1);
            }
            let ke: usize = parts[0].1;
            let ve: usize = parts[1].1;
            let kparsed = K::parse_bcf(parts[0].0.as_slice());
            match kparsed {
                Err(e) => {
                    return Err(
                        BCFParseError {
                            span: Span {
                                start: e.span.start + offset + 1,
                                end: e.span.end + offset + ke + 1,
                            },
                            error: e.error,
                        },
                    );
                },
                Ok(kv) => {
                    let vparsed = V::parse_bcf(parts[1].0.as_slice());
                    match vparsed {
                        Err(e) => {
                            let base = offset + parts[0].0.len() + ke + 2;
                            return Err(
                                BCFParseError {
                                    span: Span {
                                        start: e.span.start + base,
                                        end: e.span.end + base + ve,
                                    },
                                    error: e.error,
                                },
                            );
                        },
                        Ok(vv) => {
                            let ghost prev_deep = entries.deep_view();
                            let full_len = parts[0].0.len() + ke + parts[1].0.len() + ve;
                            entries.push((kv, vv));
                            proof {
                                assert(entries.deep_view() =~= prev_deep.push(
                                    (kv.deep_view(), vv.deep_view()),
                                ));
                                assert(prev_deep.push((kv.deep_view(), vv.deep_view()))
                                    =~= prev_deep + seq![(kv.deep_view(), vv.deep_view())]);
                                assert(spec_map_offset(gt, idx as int + 1) == spec_map_offset(
                                    gt,
                                    idx as int,
                                ) + entry_full_len(gt[idx as int].0) + 1);
                                crate::tokenizer::lemma_tokenize_total_enc_len(value@, COMMA);
                                crate::tokenizer::lemma_prefix_enc_len_steps(
                                    gt,
                                    idx as int + 1,
                                    gt.len() as int,
                                );
                                assert(prefix_enc_len(gt, idx as int + 1) == prefix_enc_len(
                                    gt,
                                    idx as int,
                                ) + gt[idx as int].0.len() + gt[idx as int].1 + 1);
                                if spec_parse_map_from::<K, V>(
                                    gt.skip(idx as int + 1),
                                    spec_map_offset(gt, idx as int + 1),
                                ) is Ok {
                                    let rest2 = spec_parse_map_from::<K, V>(
                                        gt.skip(idx as int + 1),
                                        spec_map_offset(gt, idx as int + 1),
                                    )->Ok_0;
                                    assert(prev_deep + (seq![(kv.deep_view(), vv.deep_view())]
                                        + rest2) =~= (prev_deep + seq![
                                        (kv.deep_view(), vv.deep_view()),
                                    ]) + rest2);
                                }
                            }
                            offset = offset + full_len + 1;
                            idx = idx + 1;
                        },
                    }
                },
            }
        }
        proof {
            assert(gt.skip(idx as int) =~= Seq::<(Seq<u8>, nat)>::empty());
            let rest = spec_parse_map_from::<K, V>(
                gt.skip(idx as int),
                spec_map_offset(gt, idx as int),
            )->Ok_0;
            assert(entries.deep_view() + rest =~= entries.deep_view());
        }
        Ok(BcfMap { entries })
    }
}

/// Law (span correctness): if every token before `i` decodes as `T`, and
/// token `i` fails with a span covering its whole decoded text (as the
/// primitive decoders do), then the list decoder reports exactly the
/// encoded byte range of token `i` within the still-encoded list slice:
/// the start is the sum, over the earlier tokens, of decoded length plus
/// escape count plus one for the separator, and the end adds the failing
/// token's own encoded length — not off by the escapes consumed earlier.
pub proof fn lemma_list_error_span<T: BCFValue>(toks: Seq<(Seq<u8>, nat)>, i: int, offset: int)
    requires
        0 <= i < toks.len(),
        forall|j: int| 0 <= j < i ==> T::spec_parse(#[trigger] toks[j].0) is Ok,
        T::spec_parse(toks[i].0) matches Err(e) && e.start == 0 && e.end == toks[i].0.len(),
    ensures
        spec_parse_list_from::<T>(toks, offset) matches Err(e2) && e2.start == offset
            + prefix_enc_len(toks, i) && e2.end == offset + prefix_enc_len(toks, i)
            + toks[i].0.len() + toks[i].1,
    decreases i,
{
    if i == 0 {
        assert(prefix_enc_len(toks, 0) == 0);
    } else {
        lemma_list_error_span::<T>(
            toks.skip(1),
            i - 1,
            offset + toks[0].0.len() + toks[0].1 + 1,
        );
        assert(seq![toks[0]] + toks.skip(1) =~= toks);
        crate::tokenizer::lemma_prefix_enc_len_head(toks[0], toks.skip(1), i - 1);
        assert(toks.skip(1)[i - 1] == toks[i]);
    }
}

/// Whether a map entry's decoded text is well formed for `K`/`V`: it
/// splits on `|` into exactly two parts and both parts decode.
pub open spec fn entry_wf<K: BCFValue, V: BCFValue>(pval: Seq<u8>) -> bool {
    let parts = crate::tokenizer::spec_tokenize(pval, PIPE);
    parts.len() == 2 && K::spec_parse(parts[0].0) is Ok && V::spec_parse(parts[1].0) is Ok
}

proof fn lemma_map_offset_head(h: (Seq<u8>, nat), t: Seq<(Seq<u8>, nat)>, i: int)
    requires
        0 <= i <= t.len(),
    ensures
        spec_map_offset(seq![h] + t, i + 1) == entry_full_len(h.0) + 1 + spec_map_offset(t, i),
    decreases i,
{
    if i == 0 {
        assert(spec_map_offset(seq![h] + t, 0) == 0);
        assert(spec_map_offset(t, 0) == 0);
        assert((seq![h] + t)[0] == h);
    } else {
        lemma_map_offset_head(h, t, i - 1);
        assert((seq![h] + t)[i] == t[i - 1]);
        assert(spec_map_offset(seq![h] + t, i + 1) == spec_map_offset(seq![h] + t, i)
            + entry_full_len((seq![h] + t)[i].0) + 1);
        assert(spec_map_offset(t, i) == spec_map_offset(t, i - 1) + entry_full_len(t[i - 1].0)
            + 1);
    }
}

/// Law (structural map error): if every entry before `i` is well formed
/// and decodes, and entry `i` does not split on `|` into exactly one key
/// part and one value part (zero or two-plus separators), the map decoder
/// fails with the `Invalid key value pair` error whose span covers that
/// whole entry: it starts at the entry's accumulated offset and extends
/// over the entry's decoded length.
pub proof fn lemma_map_structural_error<K: BCFValue, V: BCFValue>(
    toks: Seq<(Seq<u8>, nat)>,
    i: int,
    offset: int,
)
    requires
        0 <= i < toks.len(),
        forall|j: int| 0 <= j < i ==> entry_wf::<K, V>(#[trigger] toks[j].0),
        crate::tokenizer::spec_tokenize(toks[i].0, PIPE).len() != 2,
    ensures
        spec_parse_map_from::<K, V>(toks, offset) matches Err(e) && e.start == offset
            + spec_map_offset(toks, i) && e.end == offset + spec_map_offset(toks, i)
            + toks[i].0.len() && e.msg == invalid_pair_msg(),
    decreases i,
{
    if i == 0 {
        assert(spec_map_offset(toks, 0) == 0);
    } else {
        lemma_map_structural_error::<K, V>(
            toks.skip(1),
            i - 1,
            offset + entry_full_len(toks[0].0) + 1,
        );
        assert(seq![toks[0]] + toks.skip(1) =~= toks);
        lemma_map_offset_head(toks[0], toks.skip(1), i - 1);
        assert(toks.skip(1)[i - 1] == toks[i]);
    }
}

/// Byte-for-byte equality of two slices.
pub fn bytes_eq(a: &[u8], b: &[u8]) -> (r: bool)
    ensures
        r == (a@ == b@),
{
    if a.len() != b.len() {
        proof {
            assert(a@ != b@);
        }
        return false;
    }
    let mut i: usize = 0;
    while i < a.len()
        invariant
            i <= a.len(),
            a@.len() == b@.len(),
            forall|j: int| 0 <= j < i ==> a@[j] == b@[j],
        decreases a.len() - i,
    {
        if a[i] != b[i] {
            proof {
                assert(a@[i as int] != b@[i as int]);
            }
            return false;
        }
        i = i + 1;
    }
    proof {
        assert(a@ =~= b@);
    }
    true
}

impl<V: DeepView> BcfMap<Text, V> {
    /// Look up a value by its key bytes; a later duplicate key wins.
    pub fn get(&self, key: &[u8]) -> (r: Option<&V>)
        ensures
            match r {
                Some(v) => spec_lookup(self.deep_view(), key@) == Some(v.deep_view()),
                None => spec_lookup(self.deep_view(), key@) is None,
            },
    {
        let ghost full = self.deep_view();
        let mut i: usize = self.entries.len();
        proof {
            assert(full.take(i as int) =~= full);
        }
        while i > 0
            invariant
                i <= self.entries.len(),
                full == self.deep_view(),
                full.len() == self.entries@.len(),
                spec_lookup(full, key@) == spec_lookup(full.take(i as int), key@),
            decreases i,
    {
            i = i - 1;
            proof {
                assert(full.take(i as int + 1).drop_last() =~= full.take(i as int));
                assert(full.take(i as int + 1).last() == full[i as int]);
                assert(full[i as int] == (
                    self.entries@[i as int].0.deep_view(),
                    self.entries@[i as int].1.deep_view(),
                ));
            }
            if bytes_eq(self.entries[i].0.0.as_slice(), key) {
                return Some(&self.entries[i].1);
            }
        }
        proof {
            assert(full.take(0) =~= Seq::<(Seq<u8>, V::V)>::empty());
        }
        None
    }
}

impl<V: DeepView> BcfMap<u64, V> {
    /// Look up a value by its integer key; a later duplicate key wins.
    pub fn get(&self, key: u64) -> (r: Option<&V>)
        ensures
            match r {
                Some(v) => spec_lookup(self.deep_view(), key) == Some(v.deep_view()),
                None => spec_lookup(self.deep_view(), key) is None,
            },
    {
        let ghost full = self.deep_view();
        let mut i: usize = self.entries.len();
        proof {
            assert(full.take(i as int) =~= full);
        }
        while i > 0
            invariant
                i <= self.entries.len(),
                full == self.deep_view(),
                full.len() == self.entries@.len(),
                spec_lookup(full, key) == spec_lookup(full.take(i as int), key),
            decreases i,
    {
            i = i - 1;
            proof {
                assert(full.take(i as int + 1).drop_last() =~= full.take(i as int));
                assert(full.take(i as int + 1).last() == full[i as int]);
                assert(full[i as int] == (
                    self.entries@[i as int].0,
                    self.entries@[i as int].1.deep_view(),
                ));
            }
            if self.entries[i].0 == key {
                return Some(&self.entries[i].1);
            }
        }
        proof {
            assert(full.take(0) =~= Seq::<(u64, V::V)>::empty());
        }
        None
    }
}

} // verus!
