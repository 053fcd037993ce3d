//! Line scanner and raw document model. A configuration text is consumed
//! line by line: comment lines (first byte `#`) and blank lines are
//! skipped, every other line is split on its first colon into a trimmed
//! key and a trimmed value, and the byte offset at which the line begins
//! is recorded for the key, so that a later decode failure can be pointed
//! at inside the full original text.

use vstd::prelude::*;

use crate::decode::{matches_spec, BCFParseError, BCFParseResult, BCFValue, Span};

verus! {

/// The line terminator: `\n` (kept at the end of each line).
pub const NEWLINE: u8 = 10;

/// The key/value separator on a line: the first `:`.
pub const COLON: u8 = 58;

/// The comment marker, recognized only as a line's first byte: `#`.
pub const HASH: u8 = 35;

/// ASCII whitespace, as trimmed from keys and values.
pub open spec fn is_space(b: u8) -> bool {
    b == 32 || b == 9 || b == 10 || b == 11 || b == 12 || b == 13
}

pub open spec fn trim_front(s: Seq<u8>) -> Seq<u8>
    decreases s.len(),
{
    if s.len() > 0 && is_space(s[0]) {
        trim_front(s.skip(1))
    } else {
        s
    }
}

pub open spec fn trim_back(s: Seq<u8>) -> Seq<u8>
    decreases s.len(),
{
    if s.len() > 0 && is_space(s.last()) {
        trim_back(s.drop_last())
    } else {
        s
    }
}

/// `s` with ASCII whitespace removed from both ends.
pub open spec fn spec_trim(s: Seq<u8>) -> Seq<u8> {
    trim_back(trim_front(s))
}

/// Index of the first occurrence of `b` in `s` at or after `from`.
pub open spec fn index_of_from(s: Seq<u8>, b: u8, from: int) -> Option<int>
    decreases s.len() - from,
{
    if from < 0 || from >= s.len() {
        None
    } else if s[from] == b {
        Some(from)
    } else {
        index_of_from(s, b, from + 1)
    }
}

pub proof fn lemma_index_of_from_bounds(s: Seq<u8>, b: u8, from: int)
    requires
        0 <= from <= s.len(),
    ensures
        match index_of_from(s, b, from) {
            Some(i) => from <= i < s.len() && s[i] == b && forall|j: int|
                from <= j < i ==> s[j] != b,
            None => forall|j: int| from <= j < s.len() ==> s[j] != b,
        },
    decreases s.len() - from,
{
    if from < s.len() && s[from] != b {
        lemma_index_of_from_bounds(s, b, from + 1);
    }
}

/// End (one past) of the line starting at `pos`: just after the next
/// newline, or the end of the text for an unterminated final line.
pub open spec fn spec_line_end(text: Seq<u8>, pos: int) -> int {
    match index_of_from(text, NEWLINE, pos) {
        Some(i) => i + 1,
        None => text.len() as int,
    }
}

/// One scanned entry: the trimmed key and value texts, and the byte
/// offset at which the key's line begins in the full text.
pub struct SpecEntry {
    pub key: Seq<u8>,
    pub value: Seq<u8>,
    pub offset: int,
}

#[derive(Debug, Clone)]
pub struct ConfigEntry {
    pub key: Vec<u8>,
    pub value: Vec<u8>,
    pub offset: usize,
}

impl View for ConfigEntry {
    type V = SpecEntry;

    open spec fn view(&self) -> SpecEntry {
        SpecEntry { key: self.key@, value: self.value@, offset: self.offset as int }
    }
}

impl DeepView for ConfigEntry {
    type V = SpecEntry;

    open spec fn deep_view(&self) -> SpecEntry {
        self.view()
    }
}

/// Why a scan failed: these structural errors abort the whole parse.
#[derive(Debug, Clone, Copy, PartialEq, Eq)]
pub enum ScanErrorKind {
    /// A non-comment, non-blank line holds no colon.
    MissingColon,
    /// The text before the first colon is empty after trimming.
    EmptyKey,
    /// The text after the first colon is empty after trimming.
    EmptyValue,
}

/// A structural scan failure, at the byte offset of the offending line.
#[derive(Debug, Clone, Copy, PartialEq, Eq)]
pub struct ScanError {
    pub offset: usize,
    pub kind: ScanErrorKind,
}

/// Spec-level scan failure.
pub struct SpecScanErr {
    pub offset: int,
    pub kind: ScanErrorKind,
}

/// Scan the text from `pos` onward, one line at a time. Comment and blank
/// lines are skipped (their bytes still count toward later offsets);
/// every other line must split on its first colon into a non-empty
/// trimmed key and a non-empty trimmed value and yields one entry whose
/// offset is the position at which the line begins.
pub open spec fn spec_scan_from(text: Seq<u8>, pos: int) -> Result<Seq<SpecEntry>, SpecScanErr>
    decreases text.len() - pos,
    when pos >= 0
    via spec_scan_from_decreases
{
    if pos >= text.len() {
        Ok(Seq::<SpecEntry>::empty())
    } else {
        let end = spec_line_end(text, pos);
        let line = text.subrange(pos, end);
        if line[0] == HASH || spec_trim(line).len() == 0 {
            spec_scan_from(text, end)
        } else {
            match index_of_from(line, COLON, 0) {
                None => Err(SpecScanErr { offset: pos, kind: ScanErrorKind::MissingColon }),
                Some(ci) => {
                    let key = spec_trim(line.take(ci));
                    let value = spec_trim(line.skip(ci + 1));
                    if key.len() == 0 {
                        Err(SpecScanErr { offset: pos, kind: ScanErrorKind::EmptyKey })
                    } else if value.len() == 0 {
                        Err(SpecScanErr { offset: pos, kind: ScanErrorKind::EmptyValue })
                    } else {
                        match spec_scan_from(text, end) {
                            Ok(rest) => Ok(
                                seq![SpecEntry { key, value, offset: pos }] + rest,
                            ),
                            Err(e) => Err(e),
                        }
                    }
                },
            }
        }
    }
}

#[via_fn]
proof fn spec_scan_from_decreases(text: Seq<u8>, pos: int) {
    if 0 <= pos < text.len() {
        lemma_index_of_from_bounds(text, NEWLINE, pos);
    }
}

/// The whole scan of a text.
pub open spec fn spec_scan(text: Seq<u8>) -> Result<Seq<SpecEntry>, SpecScanErr> {
    spec_scan_from(text, 0)
}

/// The latest scanned entry whose key is `key`: a duplicate key's last
/// occurrence wins.
pub open spec fn spec_find(entries: Seq<SpecEntry>, key: Seq<u8>) -> Option<SpecEntry>
    decreases entries.len(),
{
    if entries.len() == 0 {
        None
    } else if entries.last().key == key {
        Some(entries.last())
    } else {
        spec_find(entries.drop_last(), key)
    }
}

/// Message carried by `RawConfig::get` when the key is absent.
pub open spec fn missing_key_msg() -> Seq<char> {
    "missing key"@
}

/// Find the first occurrence of `b` at or after `from`.
pub fn find_byte(s: &[u8], b: u8, from: usize) -> (r: Option<usize>)
    requires
        from <= s@.len(),
    ensures
        match index_of_from(s@, b, from as int) {
            Some(i) => r matches Some(u) && u == i,
            None => r is None,
        },
{
    let mut j: usize = from;
    while j < s.len()
        invariant
            from <= j <= s@.len(),
            index_of_from(s@, b, from as int) == index_of_from(s@, b, j as int),
        decreases s@.len() - j,
    {
        if s[j] == b {
            return Some(j);
        }
        j = j + 1;
    }
    None
}

/// Trimmed bounds of `s[lo..hi]`: the subrange with ASCII whitespace
/// removed from both ends.
fn trim_range(s: &[u8], lo: usize, hi: usize) -> (r: (usize, usize))
    requires
        lo <= hi <= s@.len(),
    ensures
        lo <= r.0 <= r.1 <= hi,
        spec_trim(s@.subrange(lo as int, hi as int)) == s@.subrange(r.0 as int, r.1 as int),
{
    let mut a = lo;
    while a < hi && (s[a] == 32 || s[a] == 9 || s[a] == 10 || s[a] == 11 || s[a] == 12 || s[a]
        == 13)
        invariant
            lo <= a <= hi <= s@.len(),
            trim_front(s@.subrange(lo as int, hi as int)) == trim_front(
                s@.subrange(a as int, hi as int),
            ),
        decreases hi - a,
    {
        proof {
            assert(s@.subrange(a as int, hi as int).skip(1) =~= s@.subrange(a as int + 1, hi as int));
        }
        a = a + 1;
    }
    proof {
        if a == hi {
            assert(s@.subrange(a as int, hi as int).len() == 0);
        }
        assert(trim_front(s@.subrange(a as int, hi as int)) == s@.subrange(a as int, hi as int));
    }
    let mut b = hi;
    while b > a && (s[b - 1] == 32 || s[b - 1] == 9 || s[b - 1] == 10 || s[b - 1] == 11 || s[b - 1]
        == 12 || s[b - 1] == 13)
        invariant
            a <= b <= hi <= s@.len(),
            trim_back(s@.subrange(a as int, hi as int)) == trim_back(
                s@.subrange(a as int, b as int),
            ),
        decreases b,
    {
        proof {
            assert(s@.subrange(a as int, b as int).drop_last() =~= s@.subrange(
                a as int,
                b as int - 1,
            ));
            assert(s@.subrange(a as int, b as int).last() == s@[b as int - 1]);
        }
        b = b - 1;
    }
    proof {
        if b == a {
            assert(s@.subrange(a as int, b as int).len() == 0);
        } else {
            assert(s@.subrange(a as int, b as int).last() == s@[b as int - 1]);
        }
        assert(trim_back(s@.subrange(a as int, b as int)) == s@.subrange(a as int, b as int));
    }
    (a, b)
}

/// Copy `s[lo..hi]` into an owned vector.
fn copy_range(s: &[u8], lo: usize, hi: usize) -> (r: Vec<u8>)
    requires
        lo <= hi <= s@.len(),
    ensures
        r@ == s@.subrange(lo as int, hi as int),
{
    vstd::slice::slice_to_vec(vstd::slice::slice_subrange(s, lo, hi))
}

/// The fully-scanned configuration source: the full original text, and
/// per key its raw value text and the byte offset at which its line
/// begins. Immutable once built.
#[derive(Debug)]
pub struct RawConfig {
    entries: Vec<ConfigEntry>,
    full: Vec<u8>,
}

impl RawConfig {
    /// The scanned entries, in document order (duplicates kept; lookups
    /// take the last).
    pub closed spec fn spec_entries(&self) -> Seq<SpecEntry> {
        self.entries.deep_view()
    }

    /// The full original text.
    pub closed spec fn spec_full(&self) -> Seq<u8> {
        self.full@
    }

    /// Every entry's key, value and offset lie within the full text, and
    /// the text is short enough for span arithmetic to stay in `usize`.
    #[verifier::type_invariant]
    pub closed spec fn wf(&self) -> bool {
        &&& self.full@.len() <= usize::MAX / 4
        &&& forall|i: int|
            0 <= i < self.entries@.len() ==> (#[trigger] self.entries@[i]).offset
                + self.entries@[i].key@.len() + 1 + self.entries@[i].value@.len()
                <= self.full@.len()
    }

    /// Scan a whole configuration text into a raw document, or fail with
    /// the first structural error. The length bound is a machine limit
    /// that keeps all span arithmetic within `usize`.
    pub fn parse(text: Vec<u8>) -> (r: Result<RawConfig, ScanError>)
        requires
            text@.len() <= usize::MAX / 4,
        ensures
            match r {
                Ok(c) => spec_scan(text@) matches Ok(es) && c.spec_entries() == es
                    && c.spec_full() == text@,
                Err(e) => spec_scan(text@) matches Err(se) && se.offset == e.offset && se.kind
                    == e.kind,
            },
    {
        let mut entries: Vec<ConfigEntry> = Vec::new();
        let mut pos: usize = 0;
        proof {
            if spec_scan_from(text@, 0) is Ok {
                let rest = spec_scan_from(text@, 0)->Ok_0;
                assert(entries.deep_view() + rest =~= rest);
            }
        }
        while pos < text.len()
            invariant
                pos <= text@.len(),
                text@.len() <= usize::MAX / 4,
                forall|i: int|
                    0 <= i < entries@.len() ==> (#[trigger] entries@[i]).offset
                        + entries@[i].key@.len() + 1 + entries@[i].value@.len() <= text@.len(),
                match spec_scan_from(text@, pos as int) {
                    Ok(rest) => spec_scan(text@) == Ok::<Seq<SpecEntry>, SpecScanErr>(
                        entries.deep_view() + rest,
                    ),
                    Err(e) => spec_scan(text@) == Err::<Seq<SpecEntry>, SpecScanErr>(e),
                },
            decreases text@.len() - pos,
        {
            proof {
                lemma_index_of_from_bounds(text@, NEWLINE, pos as int);
            }
            let end = match find_byte(text.as_slice(), NEWLINE, pos) {
                Some(i) => i + 1,
                None => text.len(),
            };
            let lslice = vstd::slice::slice_subrange(text.as_slice(), pos, end);
            let llen = end - pos;
            let ghost line = text@.subrange(pos as int, end as int);
            proof {
                assert(end == spec_line_end(text@, pos as int));
                assert(lslice@ == line);
                assert(line[0] == text@[pos as int]);
            }
            let (ta, tb) = trim_range(lslice, 0, llen);
            proof {
                assert(line.subrange(0, line.len() as int) =~= line);
            }
            let first = text[pos];
            if first == HASH || ta == tb {
                pos = end;
            } else {
                match find_byte(lslice, COLON, 0) {
                    None => {
                        return Err(ScanError { offset: pos, kind: ScanErrorKind::MissingColon });
                    },
                    Some(ci) => {
                        proof {
                            lemma_index_of_from_bounds(line, COLON, 0);
                            assert(line.take(ci as int) =~= line.subrange(0, ci as int));
                            assert(line.skip(ci as int + 1) =~= line.subrange(
                                ci as int + 1,
                                line.len() as int,
                            ));
                        }
                        let (ka, kb) = trim_range(lslice, 0, ci);
                        if ka == kb {
                            return Err(ScanError { offset: pos, kind: ScanErrorKind::EmptyKey });
                        }
                        let (va, vb) = trim_range(lslice, ci + 1, llen);
                        if va == vb {
                            return Err(ScanError { offset: pos, kind: ScanErrorKind::EmptyValue });
                        }
                        let key = copy_range(lslice, ka, kb);
                        let value = copy_range(lslice, va, vb);
                        let ghost prev_deep = entries.deep_view();
                        let ghost new_entry = SpecEntry {
                            key: spec_trim(line.take(ci as int)),
                            value: spec_trim(line.skip(ci as int + 1)),
                            offset: pos as int,
                        };
                        entries.push(ConfigEntry { key, value, offset: pos });
                        proof {
                            assert(entries.deep_view() =~= prev_deep.push(new_entry));
                            assert(prev_deep.push(new_entry) =~= prev_deep + seq![new_entry]);
                            if spec_scan_from(text@, end as int) is Ok {
                                let rest2 = spec_scan_from(text@, end as int)->Ok_0;
                                assert(prev_deep + (seq![new_entry] + rest2) =~= (prev_deep + seq![
                                    new_entry,
                                ]) + rest2);
                            }
                        }
                        pos = end;
                    },
                }
            }
        }
        proof {
            assert(spec_scan_from(text@, pos as int) == Ok::<Seq<SpecEntry>, SpecScanErr>(
                Seq::<SpecEntry>::empty(),
            ));
            let rest = spec_scan_from(text@, pos as int)->Ok_0;
            assert(entries.deep_view() + rest =~= entries.deep_view());
        }
        let c = RawConfig { entries, full: text };
        proof {
            assert(c.wf());
        }
        Ok(c)
    }

    /// The full original text, unmodified.
    pub fn full_text(&self) -> (r: &Vec<u8>)
        ensures
            r@ == self.spec_full(),
    {
        &self.full
    }

    /// The byte offset at which the line holding `key` begins (the latest
    /// occurrence of the key), or zero for a key that is absent — the
    /// fallback the diagnostic renderer uses.
    pub fn key_offset(&self, key: &[u8]) -> (r: usize)
        ensures
            r as int == match spec_find(self.spec_entries(), key@) {
                Some(e) => e.offset,
                None => 0,
            },
    {
        let ghost full = self.spec_entries();
        let mut i: usize = self.entries.len();
        proof {
            assert(full.take(i as int) =~= full);
        }
        while i > 0
            invariant
                i <= self.entries@.len(),
                full == self.spec_entries(),
                full.len() == self.entries@.len(),
                spec_find(full, key@) == spec_find(full.take(i as int), key@),
            decreases i,
        {
            i = i - 1;
            proof {
                assert(full.take(i as int + 1).drop_last() =~= full.take(i as int));
                assert(full.take(i as int + 1).last() == full[i as int]);
                assert(full[i as int] == self.entries@[i as int]@);
            }
            if crate::decode::bytes_eq(self.entries[i].key.as_slice(), key) {
                return self.entries[i].offset;
            }
        }
        proof {
            assert(full.take(0) =~= Seq::<SpecEntry>::empty());
        }
        0
    }

    /// Decode the value stored under `key` as `T`: the latest entry with
    /// that key wins; a missing key reports the `missing key` error with
    /// an empty span.
    pub fn get<T: BCFValue>(&self, key: &[u8]) -> (r: BCFParseResult<T>)
        ensures
            match spec_find(self.spec_entries(), key@) {
                Some(e) => matches_spec(r, T::spec_parse(e.value)),
                None => r matches Err(err) && err.span.start == 0 && err.span.end == 0
                    && err.error@ == missing_key_msg(),
            },
    {
        proof {
            use_type_invariant(self);
        }
        let ghost full = self.spec_entries();
        let mut i: usize = self.entries.len();
        proof {
            assert(full.take(i as int) =~= full);
        }
        while i > 0
            invariant
                i <= self.entries@.len(),
                full == self.spec_entries(),
                full.len() == self.entries@.len(),
                spec_find(full, key@) == spec_find(full.take(i as int), key@),
            decreases i,
        {
            i = i - 1;
            proof {
                assert(full.take(i as int + 1).drop_last() =~= full.take(i as int));
                assert(full.take(i as int + 1).last() == full[i as int]);
                assert(full[i as int] == self.entries@[i as int]@);
            }
            if crate::decode::bytes_eq(self.entries[i].key.as_slice(), key) {
                proof {
                    use_type_invariant(self);
                    assert(self.entries@[i as int].offset + self.entries@[i as int].key@.len() + 1
                        + self.entries@[i as int].value@.len() <= self.full@.len());
                }
                return T::parse_bcf(self.entries[i].value.as_slice());
            }
        }
        proof {
            assert(full.take(0) =~= Seq::<SpecEntry>::empty());
        }
        Err(
            BCFParseError {
                span: Span { start: 0, end: 0 },
                error: String::from_str("missing key"),
            },
        )
    }
}

} // verus!
