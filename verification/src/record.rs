//! Line-oriented record format of the catalog file.
//!
//! A file is a decimal version line followed by one `KEY:DESCRIPTION`
//! line per record. Literal `:` characters inside either field are
//! escaped as `\:` — the only escape sequence. On read, blank lines
//! are skipped, fields are un-escaped and trimmed of surrounding
//! whitespace, and a record line without an unescaped `:` after a
//! non-empty key is malformed. Decoding refuses files whose version
//! exceeds `FILE_VERSION` and reports the first malformed line by its
//! 1-based position (`lemma_decode_encode` states the round trip).

use crate::chars::{char_range_to_string, char_range_to_vec, push_char, str_to_char_vec};
use vstd::prelude::*;
use vstd::string::StrSliceExecFns;

verus! {

/// Current version of the file format; newer files are refused.
pub const FILE_VERSION: u32 = 2;

/// Why a catalog file could not be loaded.
#[derive(Clone, Copy, Debug, PartialEq, Eq, Structural)]
pub enum LoadError {
    /// The file does not exist (raised by the caller doing the I/O).
    NotFound,
    /// The first line is not a decimal version number.
    MalformedVersion,
    /// The file's version exceeds `FILE_VERSION`.
    VersionTooNew,
    /// The line with this 1-based number is not `KEY:DESCRIPTION`.
    MalformedRecord(usize),
    /// Reading or writing failed (raised by the caller doing the I/O).
    IoError,
}

/// One record as it stands in the file: a key and the raw
/// description text.
#[derive(Debug, PartialEq)]
pub struct RawRecord {
    pub key: String,
    pub description: String,
}

/// Mathematical image of a `RawRecord`.
pub struct RawRecordView {
    pub key: Seq<char>,
    pub description: Seq<char>,
}

impl View for RawRecord {
    type V = RawRecordView;

    open spec fn view(&self) -> RawRecordView {
        RawRecordView { key: self.key@, description: self.description@ }
    }
}

impl DeepView for RawRecord {
    type V = RawRecordView;

    open spec fn deep_view(&self) -> RawRecordView {
        self.view()
    }
}

impl Clone for RawRecord {
    fn clone(&self) -> (r: Self)
        ensures
            r@ == self@,
    {
        RawRecord { key: self.key.clone(), description: self.description.clone() }
    }
}

/// The whitespace characters stripped from field edges and used to
/// recognize blank lines.
pub open spec fn is_space(c: char) -> bool {
    c == ' ' || c == '\t' || c == '\n' || c == '\r' || c == '\u{b}' || c == '\u{c}'
}

/// Does `c` count as whitespace?
#[verifier::when_used_as_spec(is_space)]
pub fn is_space_exec(c: char) -> (r: bool)
    ensures
        r == is_space(c),
{
    c == ' ' || c == '\t' || c == '\n' || c == '\r' || c == '\u{b}' || c == '\u{c}'
}

/// First index at or after `i` holding a non-space, or `s.len()`.
pub open spec fn scan_non_space(s: Seq<char>, i: int) -> int
    decreases s.len() - i,
{
    if i >= s.len() {
        s.len() as int
    } else if !is_space(s[i]) {
        i
    } else {
        scan_non_space(s, i + 1)
    }
}

/// Largest index at or before `j` such that everything from it up to
/// `j` is whitespace; `j` itself when `s[j - 1]` is not whitespace.
pub open spec fn scan_non_space_back(s: Seq<char>, j: int) -> int
    decreases j,
{
    if j <= 0 {
        0
    } else if !is_space(s[j - 1]) {
        j
    } else {
        scan_non_space_back(s, j - 1)
    }
}

/// `s` without leading and trailing whitespace.
pub open spec fn trim_spec(s: Seq<char>) -> Seq<char> {
    let a = scan_non_space(s, 0);
    let b = scan_non_space_back(s, s.len() as int);
    if a >= b {
        Seq::empty()
    } else {
        s.subrange(a, b)
    }
}

pub proof fn lemma_scan_non_space(s: Seq<char>, i: int)
    requires
        0 <= i <= s.len(),
    ensures
        i <= scan_non_space(s, i) <= s.len(),
        scan_non_space(s, i) < s.len() ==> !is_space(s[scan_non_space(s, i)]),
        forall|k: int| i <= k < scan_non_space(s, i) ==> is_space(s[k]),
    decreases s.len() - i,
{
    if i < s.len() && is_space(s[i]) {
        lemma_scan_non_space(s, i + 1);
    }
}

pub proof fn lemma_scan_non_space_back(s: Seq<char>, j: int)
    requires
        0 <= j <= s.len(),
    ensures
        0 <= scan_non_space_back(s, j) <= j,
        scan_non_space_back(s, j) > 0 ==> !is_space(s[scan_non_space_back(s, j) - 1]),
        forall|k: int| scan_non_space_back(s, j) <= k < j ==> is_space(s[k]),
    decreases j,
{
    if j > 0 && is_space(s[j - 1]) {
        lemma_scan_non_space_back(s, j - 1);
    }
}

/// Trimming leaves a string without surrounding whitespace unchanged.
pub proof fn lemma_trim_trimmed(s: Seq<char>)
    requires
        s.len() == 0 || (!is_space(s[0]) && !is_space(s.last())),
    ensures
        trim_spec(s) == s,
{
    if s.len() == 0 {
        assert(trim_spec(s) =~= s);
    } else {
        assert(scan_non_space(s, 0) == 0);
        assert(scan_non_space_back(s, s.len() as int) == s.len());
        assert(s.subrange(0, s.len() as int) =~= s);
    }
}

/// A string holding any non-space character does not trim to empty.
pub proof fn lemma_trim_nonempty(s: Seq<char>, i: int)
    requires
        0 <= i < s.len(),
        !is_space(s[i]),
    ensures
        trim_spec(s).len() > 0,
{
    lemma_scan_non_space(s, 0);
    lemma_scan_non_space_back(s, s.len() as int);
    assert(scan_non_space(s, 0) <= i);
    assert(scan_non_space_back(s, s.len() as int) >= i + 1);
}

/// `s` with every `:` replaced by `\:`.
pub open spec fn escape(s: Seq<char>) -> Seq<char>
    decreases s.len(),
{
    if s.len() == 0 {
        Seq::empty()
    } else if s[0] == ':' {
        seq!['\\', ':'] + escape(s.drop_first())
    } else {
        seq![s[0]] + escape(s.drop_first())
    }
}

/// `s` with every `\:` replaced by `:`, scanning left to right.
pub open spec fn unescape(s: Seq<char>) -> Seq<char>
    decreases s.len(),
{
    if s.len() == 0 {
        Seq::empty()
    } else if s.len() >= 2 && s[0] == '\\' && s[1] == ':' {
        seq![':'] + unescape(s.skip(2))
    } else {
        seq![s[0]] + unescape(s.drop_first())
    }
}

/// An escaped string never starts with `:`.
proof fn lemma_escape_first(s: Seq<char>)
    requires
        s.len() > 0,
    ensures
        escape(s).len() > 0,
        escape(s)[0] != ':',
{
}

/// Un-escaping inverts escaping exactly.
pub proof fn lemma_unescape_escape(s: Seq<char>)
    ensures
        unescape(escape(s)) == s,
    decreases s.len(),
{
    if s.len() == 0 {
    } else {
        lemma_unescape_escape(s.drop_first());
        let rest = escape(s.drop_first());
        if s[0] == ':' {
            let e = seq!['\\', ':'] + rest;
            assert(escape(s) == e);
            assert(e[0] == '\\' && e[1] == ':');
            assert(e.skip(2) =~= rest);
            assert(seq![':'] + s.drop_first() =~= s);
        } else {
            let e = seq![s[0]] + rest;
            assert(escape(s) == e);
            if e.len() >= 2 && e[0] == '\\' && e[1] == ':' {
                assert(rest[0] == ':');
                lemma_escape_first(s.drop_first());
                assert(false);
            }
            assert(e.drop_first() =~= rest);
            assert(seq![s[0]] + s.drop_first() =~= s);
        }
    }
}

/// Escaping a non-empty string yields a non-empty string.
proof fn lemma_escape_len(s: Seq<char>)
    ensures
        escape(s).len() >= s.len(),
    decreases s.len(),
{
    if s.len() > 0 {
        lemma_escape_len(s.drop_first());
    }
}

/// Every `:` in an escaped string is directly preceded by `\`.
proof fn lemma_escape_colons_escaped(s: Seq<char>, i: int)
    requires
        0 <= i < escape(s).len(),
        escape(s)[i] == ':',
    ensures
        i > 0 && escape(s)[i - 1] == '\\',
    decreases s.len(),
{
    let e = escape(s);
    if s.len() == 0 {
        assert(false);
    } else {
        let rest = escape(s.drop_first());
        if s[0] == ':' {
            if i >= 2 {
                assert(e[i] == rest[i - 2]);
                lemma_escape_colons_escaped(s.drop_first(), i - 2);
                if i - 2 == 0 {
                    lemma_escape_first(s.drop_first());
                    assert(false);
                }
                assert(e[i - 1] == rest[i - 3]);
            }
        } else {
            if i == 0 {
                assert(e[0] == s[0]);
                assert(false);
            } else {
                assert(e[i] == rest[i - 1]);
                lemma_escape_colons_escaped(s.drop_first(), i - 1);
                if i - 1 == 0 {
                    lemma_escape_first(s.drop_first());
                    assert(false);
                }
                assert(e[i - 1] == rest[i - 2]);
            }
        }
    }
}

/// The last character of an escaped string is `:` or the original
/// last character; in particular it is not `\` unless the original
/// ended in `\`.
proof fn lemma_escape_last(s: Seq<char>)
    requires
        s.len() > 0,
    ensures
        escape(s).len() > 0,
        escape(s).last() == ':' || escape(s).last() == s.last(),
    decreases s.len(),
{
    let rest = escape(s.drop_first());
    if s.len() == 1 {
        if s[0] == ':' {
            assert(escape(s).last() == ':');
        } else {
            assert(escape(s).last() == s[0]);
        }
    } else {
        lemma_escape_last(s.drop_first());
        assert(escape(s).last() == rest.last());
        assert(s.drop_first().last() == s.last());
    }
}

/// Index of the first unescaped `:` at or after `i`: a `:` whose
/// predecessor is not `\`.
pub open spec fn find_split(s: Seq<char>, i: int) -> Option<int>
    decreases s.len() - i,
{
    if i >= s.len() {
        None
    } else if s[i] == ':' && (i == 0 || s[i - 1] != '\\') {
        Some(i)
    } else {
        find_split(s, i + 1)
    }
}

/// If no position before `k` holds an unescaped colon and `k` does,
/// the scan from any earlier position finds exactly `k`.
proof fn lemma_find_split_exact(s: Seq<char>, i: int, k: int)
    requires
        0 <= i <= k < s.len(),
        s[k] == ':',
        k == 0 || s[k - 1] != '\\',
        forall|m: int| i <= m < k ==> !(#[trigger] s[m] == ':' && (m == 0 || s[m - 1] != '\\')),
    ensures
        find_split(s, i) == Some(k),
    decreases k - i,
{
    if i < k {
        lemma_find_split_exact(s, i + 1, k);
    }
}

/// Decode one record line into its trimmed, un-escaped fields, when
/// the line splits at an unescaped colon after a non-empty key.
pub open spec fn decode_record(line: Seq<char>) -> Option<RawRecordView> {
    match find_split(line, 0) {
        Some(k) => if k == 0 {
            None
        } else {
            Some(
                RawRecordView {
                    key: trim_spec(unescape(line.take(k))),
                    description: trim_spec(unescape(line.skip(k + 1))),
                },
            )
        },
        None => None,
    }
}

/// Encode one record as a line: both fields escaped, joined by `:`.
pub open spec fn encode_record(key: Seq<char>, description: Seq<char>) -> Seq<char> {
    escape(key) + seq![':'] + escape(description)
}

/// A record survives the encode/decode round trip when its key is
/// non-empty, does not end in `\`, and both fields carry no
/// surrounding whitespace.
pub open spec fn encodable(r: RawRecordView) -> bool {
    &&& r.key.len() > 0
    &&& r.key.last() != '\\'
    &&& trim_spec(r.key) == r.key
    &&& trim_spec(r.description) == r.description
}

/// Law: decoding an encoded record restores its fields exactly, for
/// every encodable record — in particular, keys and descriptions
/// holding literal `:` characters survive unchanged through the
/// escaping.
pub proof fn lemma_decode_encode_record(r: RawRecordView)
    requires
        encodable(r),
    ensures
        decode_record(encode_record(r.key, r.description)) == Some(r),
{
    let ek = escape(r.key);
    let ed = escape(r.description);
    let line = encode_record(r.key, r.description);
    let k = ek.len() as int;
    lemma_escape_len(r.key);
    assert(line[k] == ':');
    lemma_escape_last(r.key);
    assert(line[k - 1] == ek.last());
    assert(r.key.last() != ':' || ek.last() == ':') by {
        if r.key.last() == ':' {
        }
    }
    assert(ek.last() != '\\');
    assert forall|m: int| 0 <= m < k implies !(#[trigger] line[m] == ':' && (m == 0 || line[m - 1]
        != '\\')) by {
        if line[m] == ':' {
            assert(line[m] == ek[m]);
            lemma_escape_colons_escaped(r.key, m);
            assert(line[m - 1] == ek[m - 1]);
        }
    }
    lemma_find_split_exact(line, 0, k);
    assert(line.take(k) =~= ek);
    assert(line.skip(k + 1) =~= ed);
    lemma_unescape_escape(r.key);
    lemma_unescape_escape(r.description);
}

/// Is `c` a decimal digit?
pub open spec fn is_digit(c: char) -> bool {
    48 <= c as u32 <= 57
}

/// The numeric value of the digit `c`.
pub open spec fn digit_val(c: char) -> int {
    c as u32 - 48
}

/// Is `s` a non-empty run of decimal digits?
pub open spec fn is_digits(s: Seq<char>) -> bool {
    s.len() > 0 && forall|i: int| 0 <= i < s.len() ==> is_digit(#[trigger] s[i])
}

/// The number denoted by the digit run `s`.
pub open spec fn digits_val(s: Seq<char>) -> int
    decreases s.len(),
{
    if s.len() == 0 {
        0
    } else {
        digits_val(s.drop_last()) * 10 + digit_val(s.last())
    }
}

/// The version denoted by the first line: its trimmed text read as a
/// decimal number, when it is one and fits in `u32`.
pub open spec fn parse_version(line: Seq<char>) -> Option<u32> {
    let t = trim_spec(line);
    if is_digits(t) && digits_val(t) <= u32::MAX {
        Some(digits_val(t) as u32)
    } else {
        None
    }
}

/// The digit character for `d`.
pub open spec fn digit_char(d: int) -> char {
    if d == 0 {
        '0'
    } else if d == 1 {
        '1'
    } else if d == 2 {
        '2'
    } else if d == 3 {
        '3'
    } else if d == 4 {
        '4'
    } else if d == 5 {
        '5'
    } else if d == 6 {
        '6'
    } else if d == 7 {
        '7'
    } else if d == 8 {
        '8'
    } else {
        '9'
    }
}

/// The decimal digit run denoting `v`.
pub open spec fn u32_digits(v: int) -> Seq<char>
    decreases v,
{
    if v < 10 {
        seq![digit_char(v)]
    } else {
        u32_digits(v / 10).push(digit_char(v % 10))
    }
}

/// The digit run of `v` reads back as `v`, is all digits, and holds
/// no whitespace.
pub proof fn lemma_u32_digits_val(v: int)
    requires
        v >= 0,
    ensures
        is_digits(u32_digits(v)),
        digits_val(u32_digits(v)) == v,
        trim_spec(u32_digits(v)) == u32_digits(v),
    decreases v,
{
    let ds = u32_digits(v);
    if v < 10 {
        assert(ds =~= seq![digit_char(v)]);
        assert(is_digit(digit_char(v)));
        assert(ds.drop_last() =~= Seq::<char>::empty());
        assert(ds.last() == digit_char(v));
        assert(digits_val(ds.drop_last()) == 0);
        assert(digits_val(ds) == digit_val(digit_char(v)));
        assert(digit_val(digit_char(v)) == v);
    } else {
        lemma_u32_digits_val(v / 10);
        let pre = u32_digits(v / 10);
        assert(ds == pre.push(digit_char(v % 10)));
        assert(ds.drop_last() =~= pre);
        assert(ds.last() == digit_char(v % 10));
        assert(digit_val(digit_char(v % 10)) == v % 10);
        assert(digits_val(ds) == digits_val(pre) * 10 + v % 10);
        assert((v / 10) * 10 + v % 10 == v) by {
            assert(v == 10 * (v / 10) + v % 10);
        }
        assert forall|i: int| 0 <= i < ds.len() implies is_digit(#[trigger] ds[i]) by {
            if i < pre.len() {
                assert(ds[i] == pre[i]);
            }
        }
    }
    assert(!is_space(ds[0]));
    assert(!is_space(ds.last()));
    lemma_trim_trimmed(ds);
}

/// Bounds of the non-whitespace middle of `v`: the scan results from
/// both ends.
fn trim_bounds(v: &Vec<char>) -> (r: (usize, usize))
    ensures
        r.0 == scan_non_space(v@, 0),
        r.1 == scan_non_space_back(v@, v@.len() as int),
        r.0 <= v@.len(),
        r.1 <= v@.len(),
{
    let mut a: usize = 0;
    while a < v.len() && is_space_exec(v[a])
        invariant
            a <= v@.len(),
            scan_non_space(v@, 0) == scan_non_space(v@, a as int),
        decreases v@.len() - a,
    {
        a = a + 1;
    }
    let mut b: usize = v.len();
    while b > 0 && is_space_exec(v[b - 1])
        invariant
            b <= v@.len(),
            scan_non_space_back(v@, v@.len() as int) == scan_non_space_back(v@, b as int),
        decreases b,
    {
        b = b - 1;
    }
    (a, b)
}

/// `v` without surrounding whitespace, as a vector.
fn trim_chars(v: &Vec<char>) -> (r: Vec<char>)
    ensures
        r@ == trim_spec(v@),
{
    let (a, b) = trim_bounds(v);
    if a >= b {
        Vec::new()
    } else {
        char_range_to_vec(v, a, b)
    }
}

/// `v` without surrounding whitespace, as a `String`.
fn trim_string(v: &Vec<char>) -> (r: String)
    ensures
        r@ == trim_spec(v@),
{
    let (a, b) = trim_bounds(v);
    if a >= b {
        String::new()
    } else {
        char_range_to_string(v, a, b)
    }
}

/// Append the escaped form of `v` to `out`.
fn escape_append(out: &mut String, v: &Vec<char>)
    ensures
        final(out)@ == old(out)@ + escape(v@),
{
    proof {
        assert(v@.skip(0) =~= v@);
    }
    let mut i: usize = 0;
    while i < v.len()
        invariant
            i <= v@.len(),
            old(out)@ + escape(v@) == out@ + escape(v@.skip(i as int)),
        decreases v@.len() - i,
    {
        let ghost cur = v@.skip(i as int);
        let ghost out0 = out@;
        proof {
            assert(cur[0] == v@[i as int]);
            assert(cur.drop_first() =~= v@.skip(i + 1));
        }
        if v[i] == ':' {
            push_char(out, '\\');
            push_char(out, ':');
            proof {
                assert(escape(cur) == seq!['\\', ':'] + escape(v@.skip(i + 1)));
                assert(out@ =~= out0 + seq!['\\', ':']);
                assert(out0 + (seq!['\\', ':'] + escape(v@.skip(i + 1))) =~= (out0 + seq![
                    '\\',
                    ':',
                ]) + escape(v@.skip(i + 1)));
            }
        } else {
            push_char(out, v[i]);
            proof {
                assert(escape(cur) == seq![cur[0]] + escape(v@.skip(i + 1)));
                assert(out@ =~= out0 + seq![cur[0]]);
                assert(out0 + (seq![cur[0]] + escape(v@.skip(i + 1))) =~= (out0 + seq![cur[0]])
                    + escape(v@.skip(i + 1)));
            }
        }
        i = i + 1;
    }
    proof {
        assert(v@.skip(v@.len() as int) =~= Seq::<char>::empty());
        assert(out@ + Seq::<char>::empty() =~= out@);
        assert(v@.skip(0) =~= v@);
    }
}

/// Encode one record as its file line: both fields escaped, joined
/// by an unescaped `:`.
pub fn encode_record_line(key: &str, description: &str) -> (r: String)
    ensures
        r@ == encode_record(key@, description@),
{
    let kv = str_to_char_vec(key);
    let dv = str_to_char_vec(description);
    let mut out = String::new();
    escape_append(&mut out, &kv);
    push_char(&mut out, ':');
    escape_append(&mut out, &dv);
    proof {
        assert(out@ =~= escape(key@) + seq![':'] + escape(description@));
    }
    out
}

/// The un-escaped form of `v[from..to]`.
fn unescape_range(v: &Vec<char>, from: usize, to: usize) -> (r: Vec<char>)
    requires
        from <= to <= v@.len(),
    ensures
        r@ == unescape(v@.subrange(from as int, to as int)),
{
    let ghost whole = v@.subrange(from as int, to as int);
    let mut r: Vec<char> = Vec::new();
    let mut i = from;
    while i < to
        invariant
            from <= i <= to <= v@.len(),
            whole == v@.subrange(from as int, to as int),
            unescape(whole) == r@ + unescape(v@.subrange(i as int, to as int)),
        decreases to - i,
    {
        let ghost cur = v@.subrange(i as int, to as int);
        let ghost r0 = r@;
        proof {
            assert(cur[0] == v@[i as int]);
        }
        if v[i] == '\\' && i + 1 < to && v[i + 1] == ':' {
            r.push(':');
            proof {
                assert(cur[1] == v@[i + 1]);
                assert(cur.skip(2) =~= v@.subrange(i + 2, to as int));
                assert(unescape(cur) == seq![':'] + unescape(v@.subrange(i + 2, to as int)));
                assert(r@ =~= r0 + seq![':']);
                assert(r0 + (seq![':'] + unescape(v@.subrange(i + 2, to as int))) =~= (r0 + seq![
                    ':',
                ]) + unescape(v@.subrange(i + 2, to as int)));
            }
            i = i + 2;
        } else {
            r.push(v[i]);
            proof {
                if cur.len() >= 2 {
                    assert(cur[1] == v@[i + 1]);
                }
                assert(cur.drop_first() =~= v@.subrange(i + 1, to as int));
                assert(unescape(cur) == seq![cur[0]] + unescape(v@.subrange(i + 1, to as int)));
                assert(r@ =~= r0 + seq![cur[0]]);
                assert(r0 + (seq![cur[0]] + unescape(v@.subrange(i + 1, to as int))) =~= (r0
                    + seq![cur[0]]) + unescape(v@.subrange(i + 1, to as int)));
            }
            i = i + 1;
        }
    }
    proof {
        assert(v@.subrange(to as int, to as int) =~= Seq::<char>::empty());
        assert(r@ + Seq::<char>::empty() =~= r@);
    }
    r
}

/// Index of the first unescaped `:` in `v`, if any.
fn find_split_exec(v: &Vec<char>) -> (r: Option<usize>)
    ensures
        match r {
            Some(k) => find_split(v@, 0) == Some(k as int) && k < v@.len(),
            None => find_split(v@, 0) is None,
        },
{
    let mut i: usize = 0;
    while i < v.len()
        invariant
            i <= v@.len(),
            find_split(v@, 0) == find_split(v@, i as int),
        decreases v@.len() - i,
    {
        if v[i] == ':' && (i == 0 || v[i - 1] != '\\') {
            return Some(i);
        }
        i = i + 1;
    }
    None
}

/// Decode one record line, if it is well-formed.
pub fn decode_record_line(line: &str) -> (r: Option<RawRecord>)
    ensures
        match r {
            Some(rec) => decode_record(line@) == Some(rec@),
            None => decode_record(line@) is None,
        },
{
    let v = str_to_char_vec(line);
    match find_split_exec(&v) {
        None => None,
        Some(k) => {
            if k == 0 {
                None
            } else {
                let n = v.len();
                let key_raw = unescape_range(&v, 0, k);
                let desc_raw = unescape_range(&v, k + 1, n);
                proof {
                    assert(v@.subrange(0, k as int) =~= v@.take(k as int));
                    assert(v@.subrange(k + 1, v@.len() as int) =~= v@.skip(k + 1));
                }
                let key = trim_string(&key_raw);
                let description = trim_string(&desc_raw);
                Some(RawRecord { key, description })
            }
        },
    }
}

/// Parse a version line: its trimmed text as a decimal `u32`.
pub fn parse_version_line(line: &str) -> (r: Option<u32>)
    ensures
        match r {
            Some(v) => parse_version(line@) == Some(v),
            None => parse_version(line@) is None,
        },
{
    let chars = str_to_char_vec(line);
    let t = trim_chars(&chars);
    if t.len() == 0 {
        return None;
    }
    let mut val: u64 = 0;
    let mut over = false;
    let mut k: usize = 0;
    while k < t.len()
        invariant
            k <= t@.len(),
            t@ == trim_spec(line@),
            forall|m: int| 0 <= m < k ==> is_digit(#[trigger] t@[m]),
            !over ==> val == digits_val(t@.take(k as int)) && val <= u32::MAX,
            over ==> digits_val(t@.take(k as int)) > u32::MAX,
        decreases t@.len() - k,
    {
        let c = t[k];
        let cu = c as u32;
        if cu < 48 || cu > 57 {
            assert(!is_digit(t@[k as int]));
            return None;
        }
        let d = cu - 48;
        proof {
            assert(t@.take(k + 1).drop_last() =~= t@.take(k as int));
            assert(t@.take(k + 1).last() == t@[k as int]);
            assert(digits_val(t@.take(k + 1)) == digits_val(t@.take(k as int)) * 10 + d);
        }
        if !over {
            val = val * 10 + (d as u64);
            if val > 0xFFFF_FFFF {
                over = true;
            }
        }
        k = k + 1;
    }
    proof {
        assert(t@.take(t@.len() as int) =~= t@);
    }
    if over {
        None
    } else {
        Some(val as u32)
    }
}

/// Decode the record lines from index `i` on: blank lines are
/// skipped, the first malformed line is an error carrying its
/// 1-based position in the file.
pub open spec fn decode_records(lines: Seq<Seq<char>>, i: int) -> Result<
    Seq<RawRecordView>,
    LoadError,
>
    decreases lines.len() - i,
{
    if i >= lines.len() {
        Ok(Seq::empty())
    } else if trim_spec(lines[i]).len() == 0 {
        decode_records(lines, i + 1)
    } else {
        match decode_record(lines[i]) {
            Some(r) => match decode_records(lines, i + 1) {
                Ok(rest) => Ok(seq![r] + rest),
                Err(e) => Err(e),
            },
            None => Err(LoadError::MalformedRecord((i + 1) as usize)),
        }
    }
}

/// Decode a whole file given as lines: the version line, then the
/// records. Exactly the errors of the taxonomy come out: no version
/// line or an unparsable one is `MalformedVersion`, a version above
/// `FILE_VERSION` is `VersionTooNew`, and a bad record line is
/// `MalformedRecord` with its 1-based line number.
pub open spec fn decode_spec(lines: Seq<Seq<char>>) -> Result<
    (u32, Seq<RawRecordView>),
    LoadError,
> {
    if lines.len() == 0 {
        Err(LoadError::MalformedVersion)
    } else {
        match parse_version(lines[0]) {
            None => Err(LoadError::MalformedVersion),
            Some(v) => if v > FILE_VERSION {
                Err(LoadError::VersionTooNew)
            } else {
                match decode_records(lines, 1) {
                    Ok(rs) => Ok((v, rs)),
                    Err(e) => Err(e),
                }
            },
        }
    }
}

/// Encode a catalog as lines: the version line, then one line per
/// record in order.
pub open spec fn encode_lines_spec(version: u32, records: Seq<RawRecordView>) -> Seq<Seq<char>> {
    seq![u32_digits(version as int)] + records.map_values(
        |r: RawRecordView| encode_record(r.key, r.description),
    )
}

/// The encoded line of an encodable record is not blank and decodes
/// back to the record.
proof fn lemma_encoded_line_round_trip(r: RawRecordView)
    requires
        encodable(r),
    ensures
        trim_spec(encode_record(r.key, r.description)).len() > 0,
        decode_record(encode_record(r.key, r.description)) == Some(r),
{
    let line = encode_record(r.key, r.description);
    lemma_escape_len(r.key);
    let k = escape(r.key).len() as int;
    assert(line[k] == ':');
    assert(!is_space(line[k]));
    lemma_trim_nonempty(line, k);
    lemma_decode_encode_record(r);
}

/// Decoding the encoded record lines from position `j` on restores
/// the records from `j` on.
proof fn lemma_decode_encode_records(version: u32, records: Seq<RawRecordView>, j: int)
    requires
        0 <= j <= records.len(),
        forall|i: int| 0 <= i < records.len() ==> encodable(#[trigger] records[i]),
    ensures
        decode_records(encode_lines_spec(version, records), j + 1) == Ok::<
            Seq<RawRecordView>,
            LoadError,
        >(records.skip(j)),
    decreases records.len() - j,
{
    let lines = encode_lines_spec(version, records);
    if j == records.len() {
        assert(records.skip(j) =~= Seq::<RawRecordView>::empty());
    } else {
        lemma_decode_encode_records(version, records, j + 1);
        assert(lines[j + 1] == encode_record(records[j].key, records[j].description));
        lemma_encoded_line_round_trip(records[j]);
        assert(seq![records[j]] + records.skip(j + 1) =~= records.skip(j));
    }
}

/// Law: decoding an encoded catalog restores the version and every
/// record's key and description, in order, for every version within
/// `FILE_VERSION` and every sequence of encodable records.
pub proof fn lemma_decode_encode(version: u32, records: Seq<RawRecordView>)
    requires
        version <= FILE_VERSION,
        forall|i: int| 0 <= i < records.len() ==> encodable(#[trigger] records[i]),
    ensures
        decode_spec(encode_lines_spec(version, records)) == Ok::<
            (u32, Seq<RawRecordView>),
            LoadError,
        >((version, records)),
{
    let lines = encode_lines_spec(version, records);
    assert(lines[0] == u32_digits(version as int));
    lemma_u32_digits_val(version as int);
    assert(parse_version(lines[0]) == Some(version));
    lemma_decode_encode_records(version, records, 0);
    assert(records.skip(0) =~= records);
}


/// The digit character for `d`.
fn digit_char_exec(d: u32) -> (c: char)
    requires
        d < 10,
    ensures
        c == digit_char(d as int),
{
    if d == 0 {
        '0'
    } else if d == 1 {
        '1'
    } else if d == 2 {
        '2'
    } else if d == 3 {
        '3'
    } else if d == 4 {
        '4'
    } else if d == 5 {
        '5'
    } else if d == 6 {
        '6'
    } else if d == 7 {
        '7'
    } else if d == 8 {
        '8'
    } else {
        '9'
    }
}

/// Append the decimal digits of `v` to `out`.
fn format_u32_into(v: u32, out: &mut String)
    ensures
        final(out)@ == old(out)@ + u32_digits(v as int),
    decreases v,
{
    if v < 10 {
        push_char(out, digit_char_exec(v));
        proof {
            assert(old(out)@.push(digit_char(v as int)) =~= old(out)@ + seq![
                digit_char(v as int),
            ]);
        }
    } else {
        format_u32_into(v / 10, out);
        push_char(out, digit_char_exec(v % 10));
        proof {
            assert((old(out)@ + u32_digits((v / 10) as int)).push(digit_char((v % 10) as int))
                =~= old(out)@ + u32_digits((v / 10) as int).push(digit_char((v % 10) as int)));
        }
    }
}

/// The decimal digits of `v`, as a `String`.
pub fn format_u32(v: u32) -> (r: String)
    ensures
        r@ == u32_digits(v as int),
{
    let mut out = String::new();
    format_u32_into(v, &mut out);
    proof {
        assert(Seq::<char>::empty() + u32_digits(v as int) =~= u32_digits(v as int));
    }
    out
}

/// `rest` prefixed by the records already decoded, unless it is an
/// error.
spec fn with_prefix(acc: Seq<RawRecordView>, r: Result<Seq<RawRecordView>, LoadError>) -> Result<
    Seq<RawRecordView>,
    LoadError,
> {
    match r {
        Ok(rest) => Ok(acc + rest),
        Err(e) => Err(e),
    }
}

/// Decode a whole file given as lines.
///
/// Returns the version and the records, in file order, or the first
/// error of the taxonomy: exactly `decode_spec` of the lines.
pub fn decode_lines(lines: &Vec<String>) -> (r: Result<(u32, Vec<RawRecord>), LoadError>)
    ensures
        match r {
            Ok(p) => decode_spec(lines.deep_view()) == Ok::<(u32, Seq<RawRecordView>), LoadError>(
                (p.0, p.1.deep_view()),
            ),
            Err(e) => decode_spec(lines.deep_view()) == Err::<
                (u32, Seq<RawRecordView>),
                LoadError,
            >(e),
        },
{
    let ghost l = lines.deep_view();
    if lines.len() == 0 {
        return Err(LoadError::MalformedVersion);
    }
    proof {
        assert(l[0] == lines@[0].deep_view());
    }
    let version = match parse_version_line(lines[0].as_str()) {
        Some(v) => v,
        None => { return Err(LoadError::MalformedVersion) },
    };
    if version > FILE_VERSION {
        return Err(LoadError::VersionTooNew);
    }
    let mut records: Vec<RawRecord> = Vec::new();
    let mut i: usize = 1;
    while i < lines.len()
        invariant
            1 <= i <= l.len(),
            l == lines.deep_view(),
            parse_version(l[0]) == Some(version),
            version <= FILE_VERSION,
            decode_records(l, 1) == with_prefix(records.deep_view(), decode_records(l, i as int)),
        decreases l.len() - i,
    {
        let ghost acc0 = records.deep_view();
        proof {
            assert(l[i as int] == lines@[i as int].deep_view());
        }
        let chars = str_to_char_vec(lines[i].as_str());
        let t = trim_chars(&chars);
        if t.len() == 0 {
            i = i + 1;
        } else {
            match decode_record_line(lines[i].as_str()) {
                Some(rec) => {
                    records.push(rec);
                    proof {
                        assert(records.deep_view() =~= acc0.push(rec@));
                        assert(decode_records(l, i as int) == with_prefix(
                            seq![rec@],
                            decode_records(l, i + 1),
                        ));
                        match decode_records(l, i + 1) {
                            Ok(rest) => {
                                assert(acc0 + (seq![rec@] + rest) =~~= acc0.push(rec@) + rest);
                            },
                            Err(_) => {},
                        }
                    }
                    i = i + 1;
                },
                None => {
                    proof {
                        assert(decode_records(l, i as int) == Err::<
                            Seq<RawRecordView>,
                            LoadError,
                        >(LoadError::MalformedRecord((i + 1) as usize)));
                    }
                    return Err(LoadError::MalformedRecord(i + 1));
                },
            }
        }
    }
    proof {
        assert(decode_records(l, l.len() as int) == Ok::<Seq<RawRecordView>, LoadError>(
            Seq::empty(),
        ));
        assert(records.deep_view() + Seq::<RawRecordView>::empty() =~= records.deep_view());
    }
    Ok((version, records))
}

/// Encode a catalog as its file lines: the version line, then one
/// line per record in order; exactly `encode_lines_spec`.
pub fn encode_lines(version: u32, records: &Vec<RawRecord>) -> (r: Vec<String>)
    ensures
        r.deep_view() == encode_lines_spec(version, records.deep_view()),
{
    let mut out: Vec<String> = Vec::new();
    out.push(format_u32(version));
    let mut i: usize = 0;
    while i < records.len()
        invariant
            i <= records@.len(),
            out.deep_view() =~~= seq![u32_digits(version as int)] + records.deep_view().take(
                i as int,
            ).map_values(|r: RawRecordView| encode_record(r.key, r.description)),
        decreases records@.len() - i,
    {
        let ghost out0 = out.deep_view();
        let line = encode_record_line(records[i].key.as_str(), records[i].description.as_str());
        out.push(line);
        proof {
            assert(out.deep_view() =~= out0.push(line@));
            assert(records.deep_view().take(i + 1).drop_last() =~= records.deep_view().take(
                i as int,
            ));
            assert(out.deep_view() =~~= seq![u32_digits(version as int)]
                + records.deep_view().take(i + 1).map_values(
                |r: RawRecordView| encode_record(r.key, r.description),
            ));
        }
        i = i + 1;
    }
    proof {
        assert(records.deep_view().take(records@.len() as int) =~= records.deep_view());
        assert(out.deep_view() =~~= encode_lines_spec(version, records.deep_view()));
    }
    out
}

/// Index of the first newline at or after `j`, or `s.len()`.
pub open spec fn next_newline(s: Seq<char>, j: int) -> int
    decreases s.len() - j,
{
    if j >= s.len() {
        s.len() as int
    } else if s[j] == '\n' {
        j
    } else {
        next_newline(s, j + 1)
    }
}

pub proof fn lemma_next_newline(s: Seq<char>, j: int)
    requires
        0 <= j <= s.len(),
    ensures
        j <= next_newline(s, j) <= s.len(),
        next_newline(s, j) < s.len() ==> s[next_newline(s, j)] == '\n',
        forall|k: int| j <= k < next_newline(s, j) ==> s[k] != '\n',
    decreases s.len() - j,
{
    if j < s.len() && s[j] != '\n' {
        lemma_next_newline(s, j + 1);
    }
}

/// The lines of `s` from position `i` on, split at newlines. A
/// trailing newline yields a final empty line.
pub open spec fn split_from(s: Seq<char>, i: int) -> Seq<Seq<char>>
    decreases s.len() - i,
    when 0 <= i <= s.len()
    via split_from_decreases
{
    let k = next_newline(s, i);
    if k >= s.len() {
        seq![s.subrange(i, s.len() as int)]
    } else {
        seq![s.subrange(i, k)] + split_from(s, k + 1)
    }
}

#[via_fn]
proof fn split_from_decreases(s: Seq<char>, i: int) {
    lemma_next_newline(s, i);
}

/// The lines of `s`: the text split at every newline.
pub open spec fn split_lines_spec(s: Seq<char>) -> Seq<Seq<char>> {
    split_from(s, 0)
}

/// Index of the first newline in `v` at or after `from`, or `v.len()`.
fn find_newline(v: &Vec<char>, from: usize) -> (k: usize)
    requires
        from <= v@.len(),
    ensures
        k == next_newline(v@, from as int),
{
    let mut k = from;
    while k < v.len()
        invariant
            from <= k <= v@.len(),
            next_newline(v@, from as int) == next_newline(v@, k as int),
        decreases v@.len() - k,
    {
        if v[k] == '\n' {
            return k;
        }
        k = k + 1;
    }
    k
}

/// Split text into its lines at every newline; exactly
/// `split_lines_spec`.
pub fn split_lines(text: &str) -> (r: Vec<String>)
    ensures
        r.deep_view() == split_lines_spec(text@),
{
    let v = str_to_char_vec(text);
    let mut out: Vec<String> = Vec::new();
    let mut i: usize = 0;
    let mut k = find_newline(&v, 0);
    proof {
        lemma_next_newline(v@, 0);
    }
    while k < v.len()
        invariant
            i <= k <= v@.len(),
            v@ == text@,
            k == next_newline(v@, i as int),
            split_lines_spec(text@) =~~= out.deep_view() + split_from(v@, i as int),
        decreases v@.len() - k,
    {
        let ghost out0 = out.deep_view();
        let line = char_range_to_string(&v, i, k);
        out.push(line);
        proof {
            assert(out.deep_view() =~= out0.push(line@));
            assert(split_from(v@, i as int) == seq![v@.subrange(i as int, k as int)] + split_from(
                v@,
                k + 1,
            ));
            assert(out0 + (seq![line@] + split_from(v@, k + 1)) =~~= out0.push(line@)
                + split_from(v@, k + 1));
        }
        i = k + 1;
        k = find_newline(&v, i);
        proof {
            lemma_next_newline(v@, i as int);
        }
    }
    let ghost out0 = out.deep_view();
    let last = char_range_to_string(&v, i, v.len());
    out.push(last);
    proof {
        assert(out.deep_view() =~= out0.push(last@));
        assert(split_from(v@, i as int) == seq![v@.subrange(i as int, v@.len() as int)]);
        assert(out0 + seq![last@] =~~= out0.push(last@));
    }
    out
}

/// The text of the given lines, each followed by a newline.
pub open spec fn join_lines_spec(lines: Seq<Seq<char>>) -> Seq<char>
    decreases lines.len(),
{
    if lines.len() == 0 {
        Seq::empty()
    } else {
        lines[0] + seq!['\n'] + join_lines_spec(lines.drop_first())
    }
}

/// Join lines into file text, each line followed by a newline;
/// exactly `join_lines_spec`.
pub fn join_lines(lines: &Vec<String>) -> (r: String)
    ensures
        r@ == join_lines_spec(lines.deep_view()),
{
    let ghost l = lines.deep_view();
    let mut out = String::new();
    let mut i: usize = 0;
    proof {
        assert(l.skip(0) =~= l);
    }
    while i < lines.len()
        invariant
            i <= l.len(),
            l == lines.deep_view(),
            join_lines_spec(l) == out@ + join_lines_spec(l.skip(i as int)),
        decreases l.len() - i,
    {
        let ghost out0 = out@;
        let ghost cur = l.skip(i as int);
        proof {
            assert(cur[0] == l[i as int]);
            assert(cur.drop_first() =~= l.skip(i + 1));
            assert(l[i as int] == lines@[i as int].deep_view());
        }
        out.append(lines[i].as_str());
        push_char(&mut out, '\n');
        proof {
            assert(out@ =~= out0 + (l[i as int] + seq!['\n']));
            assert(out0 + ((l[i as int] + seq!['\n']) + join_lines_spec(l.skip(i + 1))) =~= (out0
                + (l[i as int] + seq!['\n'])) + join_lines_spec(l.skip(i + 1)));
            assert(join_lines_spec(cur) =~= (l[i as int] + seq!['\n']) + join_lines_spec(
                l.skip(i + 1),
            ));
        }
        i = i + 1;
    }
    proof {
        assert(l.skip(l.len() as int) =~= Seq::<Seq<char>>::empty());
        assert(out@ + Seq::<char>::empty() =~= out@);
    }
    out
}

/// A successful decode yields at most one record per line read.
pub proof fn lemma_decode_records_len(lines: Seq<Seq<char>>, i: int)
    requires
        0 <= i <= lines.len(),
    ensures
        decode_records(lines, i) is Ok ==> decode_records(lines, i)->Ok_0.len() <= lines.len() - i,
    decreases lines.len() - i,
{
    if i < lines.len() {
        lemma_decode_records_len(lines, i + 1);
    }
}

/// Splitting yields at most one line per character, plus one.
pub proof fn lemma_split_from_len(s: Seq<char>, i: int)
    requires
        0 <= i <= s.len(),
    ensures
        split_from(s, i).len() <= s.len() - i + 1,
    decreases s.len() - i,
{
    lemma_next_newline(s, i);
    let k = next_newline(s, i);
    if k < s.len() {
        lemma_split_from_len(s, k + 1);
    }
}

/// A scan that finds no newline before `k` and one at `k` stops
/// exactly there.
proof fn lemma_next_newline_exact(s: Seq<char>, j: int, k: int)
    requires
        0 <= j <= k <= s.len(),
        forall|m: int| j <= m < k ==> s[m] != '\n',
        k < s.len() ==> s[k] == '\n',
    ensures
        k < s.len() ==> next_newline(s, j) == k,
        k == s.len() ==> next_newline(s, j) == s.len(),
    decreases k - j,
{
    if j < k {
        lemma_next_newline_exact(s, j + 1, k);
    }
}

/// Splitting from a position inside the text only sees the suffix.
proof fn lemma_split_from_shift(a: Seq<char>, b: Seq<char>, j: int)
    requires
        0 <= j <= b.len(),
    ensures
        split_from(a + b, a.len() + j) == split_from(b, j),
    decreases b.len() - j,
{
    let s = a + b;
    let k = next_newline(b, j);
    lemma_next_newline(b, j);
    assert forall|m: int| a.len() + j <= m < a.len() + k implies s[m] != '\n' by {
        assert(s[m] == b[m - a.len()]);
    }
    if k < b.len() {
        assert(s[a.len() + k] == b[k]);
        lemma_next_newline_exact(s, a.len() + j, a.len() + k);
        assert(s.subrange(a.len() + j, a.len() + k) =~= b.subrange(j, k));
        lemma_split_from_shift(a, b, k + 1);
    } else {
        lemma_next_newline_exact(s, a.len() + j, s.len() as int);
        assert(s.subrange(a.len() + j, s.len() as int) =~= b.subrange(j, b.len() as int));
    }
}

/// Splitting inverts joining: the lines come back, with one trailing
/// empty line from the final newline, as long as no line holds a
/// newline itself.
pub proof fn lemma_split_join(ls: Seq<Seq<char>>)
    requires
        forall|i: int, c: int|
            0 <= i < ls.len() && 0 <= c < ls[i].len() ==> #[trigger] ls[i][c] != '\n',
    ensures
        split_lines_spec(join_lines_spec(ls)) == ls.push(Seq::<char>::empty()),
    decreases ls.len(),
{
    if ls.len() == 0 {
        assert(join_lines_spec(ls) == Seq::<char>::empty());
        assert(split_lines_spec(join_lines_spec(ls)) =~~= ls.push(Seq::<char>::empty()));
    } else {
        let head = ls[0];
        let rest = join_lines_spec(ls.drop_first());
        let s = join_lines_spec(ls);
        assert(s == head + seq!['\n'] + rest);
        assert forall|m: int| 0 <= m < head.len() implies s[m] != '\n' by {
            assert(s[m] == ls[0][m]);
        }
        assert(s[head.len() as int] == '\n');
        lemma_next_newline_exact(s, 0, head.len() as int);
        assert(s.subrange(0, head.len() as int) =~= head);
        assert(split_from(s, 0) == seq![head] + split_from(s, head.len() as int + 1));
        assert((head + seq!['\n']) + rest =~= s);
        assert((head + seq!['\n']).len() == head.len() + 1);
        lemma_split_from_shift(head + seq!['\n'], rest, 0);
        assert(split_from(s, head.len() as int + 1) == split_from(rest, 0));
        assert forall|i: int, c: int|
            0 <= i < ls.drop_first().len() && 0 <= c < ls.drop_first()[i].len() implies #[trigger]
        ls.drop_first()[i][c] != '\n' by {
            assert(ls.drop_first()[i] == ls[i + 1]);
        }
        lemma_split_join(ls.drop_first());
        assert(seq![head] + ls.drop_first().push(Seq::<char>::empty()) =~= ls.push(
            Seq::<char>::empty(),
        ));
    }
}

/// A trailing blank line changes nothing about the decoded records.
proof fn lemma_decode_records_blank_suffix(lines: Seq<Seq<char>>, blank: Seq<char>, i: int)
    requires
        0 <= i <= lines.len(),
        trim_spec(blank).len() == 0,
    ensures
        decode_records(lines.push(blank), i) == decode_records(lines, i),
    decreases lines.len() - i,
{
    let l2 = lines.push(blank);
    if i < lines.len() {
        assert(l2[i] == lines[i]);
        lemma_decode_records_blank_suffix(lines, blank, i + 1);
    } else {
        assert(l2[i] == blank);
        assert(decode_records(l2, i + 1) == Ok::<Seq<RawRecordView>, LoadError>(Seq::empty()));
        assert(decode_records(lines, i) == Ok::<Seq<RawRecordView>, LoadError>(Seq::empty()));
    }
}

/// Escaping introduces no newline.
proof fn lemma_escape_no_newline(s: Seq<char>)
    requires
        forall|c: int| 0 <= c < s.len() ==> s[c] != '\n',
    ensures
        forall|c: int| 0 <= c < escape(s).len() ==> escape(s)[c] != '\n',
    decreases s.len(),
{
    if s.len() > 0 {
        assert forall|c: int| 0 <= c < s.drop_first().len() implies s.drop_first()[c] != '\n' by {
            assert(s.drop_first()[c] == s[c + 1]);
        }
        lemma_escape_no_newline(s.drop_first());
        let e = escape(s);
        let rest = escape(s.drop_first());
        let tok: int = if s[0] == ':' {
            2
        } else {
            1
        };
        assert forall|c: int| 0 <= c < e.len() implies e[c] != '\n' by {
            if c >= tok {
                assert(e[c] == rest[c - tok]);
            }
        }
    }
}

/// Law: the whole text-level round trip. Encoding a catalog as file
/// text and decoding that text restores the version and every
/// record, for every version within `FILE_VERSION` and records that
/// are encodable and free of newlines.
pub proof fn lemma_text_round_trip(version: u32, records: Seq<RawRecordView>)
    requires
        version <= FILE_VERSION,
        forall|i: int| 0 <= i < records.len() ==> encodable(#[trigger] records[i]),
        forall|i: int, c: int|
            0 <= i < records.len() && 0 <= c < records[i].key.len() ==> #[trigger] records[i].key[c]
                != '\n',
        forall|i: int, c: int|
            0 <= i < records.len() && 0 <= c < records[i].description.len() ==> #[trigger]
            records[i].description[c] != '\n',
    ensures
        decode_spec(split_lines_spec(join_lines_spec(encode_lines_spec(version, records))))
            == Ok::<(u32, Seq<RawRecordView>), LoadError>((version, records)),
{
    let lines = encode_lines_spec(version, records);
    lemma_u32_digits_val(version as int);
    assert forall|i: int, c: int|
        0 <= i < lines.len() && 0 <= c < lines[i].len() implies #[trigger] lines[i][c]
        != '\n' by {
        if i == 0 {
            assert(is_digit(lines[0][c]));
        } else {
            let r = records[i - 1];
            assert(lines[i] == encode_record(r.key, r.description));
            lemma_escape_no_newline(r.key);
            lemma_escape_no_newline(r.description);
            let ek = escape(r.key);
            let ed = escape(r.description);
            if c < ek.len() {
                assert(lines[i][c] == ek[c]);
            } else if c == ek.len() {
                assert(lines[i][c] == ':');
            } else {
                assert(lines[i][c] == ed[c - ek.len() - 1]);
            }
        }
    }
    lemma_split_join(lines);
    let blank = Seq::<char>::empty();
    assert(trim_spec(blank).len() == 0);
    let l2 = lines.push(blank);
    assert(l2[0] == lines[0]);
    lemma_decode_records_blank_suffix(lines, blank, 1);
    lemma_decode_encode(version, records);
}

/// Decode a whole file given as one text: its lines, decoded.
pub fn decode_text(text: &str) -> (r: Result<(u32, Vec<RawRecord>), LoadError>)
    ensures
        match r {
            Ok(p) => decode_spec(split_lines_spec(text@)) == Ok::<
                (u32, Seq<RawRecordView>),
                LoadError,
            >((p.0, p.1.deep_view())),
            Err(e) => decode_spec(split_lines_spec(text@)) == Err::<
                (u32, Seq<RawRecordView>),
                LoadError,
            >(e),
        },
{
    let lines = split_lines(text);
    decode_lines(&lines)
}

/// Encode a catalog as one text: its lines, joined with newlines.
pub fn encode_text(version: u32, records: &Vec<RawRecord>) -> (r: String)
    ensures
        r@ == join_lines_spec(encode_lines_spec(version, records.deep_view())),
{
    let lines = encode_lines(version, records);
    join_lines(&lines)
}

} // verus!
