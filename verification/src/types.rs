//! The OID codec: dotted-decimal text to structured arcs and back.
//!
//! The specification side models a dotted-decimal string as the sequence
//! of segments between `.` characters (`split_dots`), each segment as a
//! decimal numeral with an optional leading `+` (`arc_of_segment`), and
//! the canonical rendering of an identifier as a leading dot followed by
//! the arcs joined with dots (`encode_arcs`).

use vstd::prelude::*;

use crate::asn1::{oid_arcs, oid_components, oid_new, valid_oid_arcs};
use crate::error::Error;

verus! {

/// The declared SNMP wire type of a value as it appears in walk output.
#[derive(Debug, Clone, Copy, PartialEq, Eq, Structural)]
pub enum SNMPDataType {
    Integer,
    String,
    Null,
    Oid,
    IpAddress,
    Counter32,
    Gauge32,
    Timeticks,
    Opaque,
    Counter64,
}

// ---------------------------------------------------------------------------
// Decimal numerals
// ---------------------------------------------------------------------------

pub open spec fn is_digit_char(c: char) -> bool {
    '0' <= c && c <= '9'
}

pub open spec fn digit_value(c: char) -> nat {
    (c as int - '0' as int) as nat
}

pub open spec fn is_digit_seq(s: Seq<char>) -> bool {
    forall|i: int| 0 <= i < s.len() ==> is_digit_char(#[trigger] s[i])
}

/// The number a digit string denotes, most significant digit first.
pub open spec fn dec_value(s: Seq<char>) -> nat
    decreases s.len(),
{
    if s.len() == 0 {
        0
    } else {
        dec_value(s.drop_last()) * 10 + digit_value(s.last())
    }
}

/// A numeral may begin with a single `+` sign; the digits follow it.
pub open spec fn digits_part(s: Seq<char>) -> Seq<char> {
    if s.len() > 0 && s[0] == '+' {
        s.drop_first()
    } else {
        s
    }
}

/// A segment denotes an arc when, after an optional leading `+`, it is a
/// non-empty string of decimal digits whose value fits in 32 bits.
pub open spec fn valid_arc_segment(s: Seq<char>) -> bool {
    &&& digits_part(s).len() > 0
    &&& is_digit_seq(digits_part(s))
    &&& dec_value(digits_part(s)) <= u32::MAX
}

pub open spec fn arc_of_segment(s: Seq<char>) -> u32 {
    dec_value(digits_part(s)) as u32
}

pub open spec fn digit_char(d: nat) -> char {
    if d == 0 {
        '0'
    } else if d == 1 {
        '1'
    } else if d == 2 {
        '2'
    } else if d == 3 {
        '3'
    } else if d == 4 {
        '4'
    } else if d == 5 {
        '5'
    } else if d == 6 {
        '6'
    } else if d == 7 {
        '7'
    } else if d == 8 {
        '8'
    } else {
        '9'
    }
}

/// The decimal rendering of a number, without sign or leading zeros
/// (`0` itself renders as `"0"`).
pub open spec fn dec_string(n: nat) -> Seq<char>
    decreases n,
{
    if n < 10 {
        seq![digit_char(n)]
    } else {
        dec_string(n / 10) + seq![digit_char(n % 10)]
    }
}

// ---------------------------------------------------------------------------
// Splitting on dots
// ---------------------------------------------------------------------------

/// The index of the first occurrence of `c` in `s`, or `s.len()` when
/// `s` does not contain it.
pub open spec fn first_occurrence(s: Seq<char>, c: char) -> int
    decreases s.len(),
{
    if s.len() == 0 {
        0
    } else if s[0] == c {
        0
    } else {
        1 + first_occurrence(s.drop_first(), c)
    }
}

/// The segments of `s` between `.` characters, as `str::split('.')`
/// yields them: the empty string splits into one empty segment, and a
/// dot at either end contributes an empty segment on that side.
pub open spec fn split_dots(s: Seq<char>) -> Seq<Seq<char>>
    decreases s.len(),
{
    if s.len() == 0 {
        seq![Seq::<char>::empty()]
    } else if s[0] == '.' {
        seq![Seq::<char>::empty()] + split_dots(s.drop_first())
    } else {
        let rest = split_dots(s.drop_first());
        seq![seq![s[0]] + rest[0]] + rest.drop_first()
    }
}

// ---------------------------------------------------------------------------
// Decoding and encoding, as specifications
// ---------------------------------------------------------------------------

/// The segments a decode must parse: all segments of the input, except
/// that one empty segment arising from a leading dot is dropped.
pub open spec fn decode_segments(s: Seq<char>) -> Seq<Seq<char>> {
    let raw = split_dots(s);
    if raw[0].len() == 0 {
        raw.drop_first()
    } else {
        raw
    }
}

pub open spec fn segments_ok(segs: Seq<Seq<char>>) -> bool {
    forall|i: int| 0 <= i < segs.len() ==> valid_arc_segment(#[trigger] segs[i])
}

pub open spec fn arcs_of_segments(segs: Seq<Seq<char>>) -> Seq<u32> {
    segs.map_values(|seg: Seq<char>| arc_of_segment(seg))
}

/// The arcs a dotted-decimal string denotes (meaningful when
/// `oid_decodes(s)` holds).
pub open spec fn oid_decode_arcs(s: Seq<char>) -> Seq<u32> {
    arcs_of_segments(decode_segments(s))
}

/// A dotted-decimal string decodes when every segment denotes an arc and
/// the arcs form a valid object identifier.
pub open spec fn oid_decodes(s: Seq<char>) -> bool {
    &&& segments_ok(decode_segments(s))
    &&& valid_oid_arcs(oid_decode_arcs(s))
}

/// The canonical rendering: `.` before each arc, so `[1, 3, 6]` renders
/// as `".1.3.6"`.
pub open spec fn encode_arcs(arcs: Seq<u32>) -> Seq<char>
    decreases arcs.len(),
{
    if arcs.len() == 0 {
        Seq::<char>::empty()
    } else {
        seq!['.'] + dec_string(arcs[0] as nat) + encode_arcs(arcs.drop_first())
    }
}

// ---------------------------------------------------------------------------
// Properties of the model
// ---------------------------------------------------------------------------

pub proof fn lemma_split_dots_len(s: Seq<char>)
    ensures
        split_dots(s).len() >= 1,
    decreases s.len(),
{
    if s.len() == 0 {
    } else if s[0] == '.' {
        lemma_split_dots_len(s.drop_first());
    } else {
        lemma_split_dots_len(s.drop_first());
    }
}

pub proof fn lemma_first_occurrence_props(s: Seq<char>, c: char)
    ensures
        0 <= first_occurrence(s, c) <= s.len(),
        forall|k: int| 0 <= k < first_occurrence(s, c) ==> s[k] != c,
        first_occurrence(s, c) < s.len() ==> s[first_occurrence(s, c)] == c,
    decreases s.len(),
{
    if s.len() == 0 {
    } else if s[0] == c {
    } else {
        lemma_first_occurrence_props(s.drop_first(), c);
        assert forall|k: int| 0 <= k < first_occurrence(s, c) implies s[k] != c by {
            if k > 0 {
                assert(s.drop_first()[k - 1] != c);
            }
        }
    }
}

pub proof fn lemma_first_occurrence_is(s: Seq<char>, c: char, i: int)
    requires
        0 <= i <= s.len(),
        forall|k: int| 0 <= k < i ==> s[k] != c,
        i < s.len() ==> s[i] == c,
    ensures
        first_occurrence(s, c) == i,
{
    lemma_first_occurrence_props(s, c);
    let fo = first_occurrence(s, c);
    if fo < i {
        assert(s[fo] != c);
        assert(s[fo] == c);
    }
    if fo > i {
        assert(s[i] != c);
    }
}

/// The head of `split_dots(s)` is the prefix of `s` up to the first dot,
/// and the remaining segments are the segments of what follows that dot.
pub proof fn lemma_split_dots_structure(s: Seq<char>)
    ensures
        split_dots(s).len() >= 1,
        split_dots(s)[0] == s.take(first_occurrence(s, '.')),
        first_occurrence(s, '.') < s.len() ==> split_dots(s) == seq![
            s.take(first_occurrence(s, '.')),
        ] + split_dots(s.skip(first_occurrence(s, '.') + 1)),
        first_occurrence(s, '.') == s.len() ==> split_dots(s) == seq![s],
    decreases s.len(),
{
    lemma_split_dots_len(s);
    lemma_first_occurrence_props(s, '.');
    let fo = first_occurrence(s, '.');
    if s.len() == 0 {
        assert(s.take(0) =~= s);
    } else if s[0] == '.' {
        assert(s.take(0) =~= Seq::<char>::empty());
        assert(s.skip(1) =~= s.drop_first());
        assert(split_dots(s) =~= seq![s.take(0)] + split_dots(s.skip(1)));
    } else {
        let t = s.drop_first();
        lemma_split_dots_structure(t);
        let fot = first_occurrence(t, '.');
        assert(fo == 1 + fot);
        assert(seq![s[0]] + t.take(fot) =~= s.take(fo));
        if fot < t.len() {
            assert(t.skip(fot + 1) =~= s.skip(fo + 1));
            assert(split_dots(t).drop_first() =~= split_dots(t.skip(fot + 1)));
            assert(split_dots(s) =~= seq![s.take(fo)] + split_dots(s.skip(fo + 1)));
        } else {
            assert(split_dots(t) =~= seq![t]);
            assert(seq![s[0]] + t =~= s);
            assert(split_dots(s) =~= seq![s]);
        }
    }
}

pub proof fn lemma_dec_value_push(s: Seq<char>, c: char)
    ensures
        dec_value(s.push(c)) == dec_value(s) * 10 + digit_value(c),
{
    assert(s.push(c).drop_last() =~= s);
}

pub proof fn lemma_dec_value_prefix(s: Seq<char>, k: int)
    requires
        0 <= k <= s.len(),
    ensures
        dec_value(s.take(k)) <= dec_value(s),
    decreases s.len(),
{
    if k == s.len() {
        assert(s.take(k) =~= s);
    } else {
        assert(s.drop_last().take(k) =~= s.take(k));
        lemma_dec_value_prefix(s.drop_last(), k);
    }
}

pub proof fn lemma_dec_string_props(n: nat)
    ensures
        dec_string(n).len() >= 1,
        is_digit_seq(dec_string(n)),
        dec_value(dec_string(n)) == n,
    decreases n,
{
    if n < 10 {
        let w = dec_string(n);
        assert(w == seq![digit_char(n)]);
        assert(w.len() == 1);
        assert(w.drop_last() =~= Seq::<char>::empty());
        assert(dec_value(w.drop_last()) == 0);
        assert(w.last() == digit_char(n));
        assert(digit_value(digit_char(n)) == n);
        assert(dec_value(w) == dec_value(w.drop_last()) * 10 + digit_value(w.last()));
    } else {
        lemma_dec_string_props(n / 10);
        let w = dec_string(n / 10) + seq![digit_char(n % 10)];
        assert(w.drop_last() =~= dec_string(n / 10));
        assert(w.last() == digit_char((n % 10) as nat));
        assert(digit_value(digit_char((n % 10) as nat)) == n % 10);
        assert(dec_value(w) == dec_value(dec_string(n / 10)) * 10 + digit_value(w.last()));
        vstd::arithmetic::div_mod::lemma_fundamental_div_mod(n as int, 10);
        assert(dec_value(w) == n);
        assert forall|i: int| 0 <= i < w.len() implies is_digit_char(#[trigger] w[i]) by {
            if i < w.len() - 1 {
                assert(w[i] == dec_string(n / 10)[i]);
            }
        }
    }
}

// ---------------------------------------------------------------------------
// Laws of the codec
// ---------------------------------------------------------------------------

proof fn lemma_encode_tail_splits(arcs: Seq<u32>)
    requires
        arcs.len() > 0,
    ensures
        split_dots(dec_string(arcs[0] as nat) + encode_arcs(arcs.drop_first()))
            == arcs.map_values(|a: u32| dec_string(a as nat)),
    decreases arcs.len(),
{
    let d0 = dec_string(arcs[0] as nat);
    lemma_dec_string_props(arcs[0] as nat);
    let rest = arcs.drop_first();
    let segs = arcs.map_values(|a: u32| dec_string(a as nat));
    if rest.len() == 0 {
        assert(d0 + encode_arcs(rest) =~= d0);
        lemma_first_occurrence_is(d0, '.', d0.len() as int);
        lemma_split_dots_structure(d0);
        assert(segs =~= seq![d0]);
    } else {
        lemma_encode_tail_splits(rest);
        let x = dec_string(rest[0] as nat) + encode_arcs(rest.drop_first());
        let w = d0 + encode_arcs(rest);
        assert(w =~= (d0 + seq!['.']) + x);
        assert(forall|k: int| 0 <= k < d0.len() ==> w[k] == d0[k]);
        lemma_first_occurrence_is(w, '.', d0.len() as int);
        lemma_split_dots_structure(w);
        assert(w.take(d0.len() as int) =~= d0);
        assert(w.skip(d0.len() as int + 1) =~= x);
        assert(segs =~= seq![d0] + rest.map_values(|a: u32| dec_string(a as nat)));
    }
}

/// Encoding is left-inverted by decoding: the canonical rendering of any
/// non-empty arc sequence splits back into exactly those arcs, and the
/// rendering decodes in full exactly when the arcs form a valid object
/// identifier (every identifier the codec can hold satisfies that).
pub proof fn lemma_encode_decode_round_trip(arcs: Seq<u32>)
    requires
        arcs.len() > 0,
    ensures
        segments_ok(decode_segments(encode_arcs(arcs))),
        oid_decode_arcs(encode_arcs(arcs)) == arcs,
        oid_decodes(encode_arcs(arcs)) <==> valid_oid_arcs(arcs),
{
    let e = encode_arcs(arcs);
    let segs = arcs.map_values(|a: u32| dec_string(a as nat));
    let tail = dec_string(arcs[0] as nat) + encode_arcs(arcs.drop_first());
    assert(e == (seq!['.'] + dec_string(arcs[0] as nat)) + encode_arcs(arcs.drop_first()));
    assert(e[0] == '.');
    assert(e.drop_first() =~= tail);
    lemma_encode_tail_splits(arcs);
    assert(split_dots(e) == seq![Seq::<char>::empty()] + segs);
    assert(split_dots(e)[0].len() == 0);
    assert(decode_segments(e) =~= segs);
    assert forall|i: int| 0 <= i < segs.len() implies valid_arc_segment(#[trigger] segs[i]) by {
        lemma_dec_string_props(arcs[i] as nat);
        let d = dec_string(arcs[i] as nat);
        assert(is_digit_char(d[0]));
        assert(d[0] != '+');
        assert(digits_part(d) == d);
    }
    assert(oid_decode_arcs(e) =~= arcs) by {
        assert forall|i: int| 0 <= i < arcs.len() implies oid_decode_arcs(e)[i] == arcs[i] by {
            lemma_dec_string_props(arcs[i] as nat);
            let d = dec_string(arcs[i] as nat);
            assert(d[0] != '+');
            assert(digits_part(d) == d);
            assert(oid_decode_arcs(e)[i] == arc_of_segment(segs[i]));
        }
    }
}

/// A single leading dot is tolerated and changes nothing: for text that
/// does not already begin with a dot, decoding the text with a dot in
/// front sees the same segments, so it succeeds on the same inputs and
/// yields the same arcs.
pub proof fn lemma_leading_dot_tolerance(s: Seq<char>)
    requires
        s.len() > 0,
        s[0] != '.',
    ensures
        decode_segments(seq!['.'] + s) == decode_segments(s),
        oid_decodes(seq!['.'] + s) == oid_decodes(s),
        oid_decode_arcs(seq!['.'] + s) == oid_decode_arcs(s),
{
    let t = seq!['.'] + s;
    assert(t[0] == '.');
    assert(t.drop_first() =~= s);
    lemma_split_dots_len(s);
    assert(split_dots(t) == seq![Seq::<char>::empty()] + split_dots(s));
    assert(split_dots(t)[0].len() == 0);
    assert(decode_segments(t) =~= split_dots(s));
    lemma_split_dots_len(s.drop_first());
    assert(split_dots(s)[0] == seq![s[0]] + split_dots(s.drop_first())[0]);
    assert(split_dots(s)[0].len() > 0);
}

// ---------------------------------------------------------------------------
// Stepping through a string segment by segment
// ---------------------------------------------------------------------------

/// While a decode scans the segment that starts at `pos` (its digits at
/// `digit_start`, the scan at `j`), these are the facts the scan has
/// established so far.
spec fn scan_state(s: Seq<char>, pos: int, digit_start: int, j: int) -> bool {
    &&& 0 <= pos <= digit_start <= j <= s.len()
    &&& digit_start <= pos + 1
    &&& (digit_start == pos + 1 ==> s[pos] == '+')
    &&& (digit_start == pos ==> (pos == s.len() || s[pos] != '+'))
    &&& (forall|k: int| pos <= k < j ==> s[k] != '.')
    &&& (forall|k: int| digit_start <= k < j ==> is_digit_char(#[trigger] s[k]))
}

/// A scan that stops for one of the three fatal reasons — a character
/// that is neither digit nor dot, digits that exceed 32 bits, or a
/// segment with no digits at all — has found an invalid segment, so the
/// whole string fails to decode.
proof fn lemma_segment_invalid(s: Seq<char>, pos: int, digit_start: int, j: int, done: Seq<Seq<char>>)
    requires
        scan_state(s, pos, digit_start, j),
        decode_segments(s) == done + split_dots(s.skip(pos)),
        (j < s.len() && s[j] != '.' && !is_digit_char(s[j])) || (j < s.len() && is_digit_char(s[j])
            && dec_value(s.subrange(digit_start, j + 1)) > u32::MAX) || (j == digit_start && (j
            == s.len() || s[j] == '.')),
    ensures
        !oid_decodes(s),
{
    let rem = s.skip(pos);
    lemma_split_dots_structure(rem);
    lemma_first_occurrence_props(rem, '.');
    let fo = first_occurrence(rem, '.');
    assert forall|k: int| 0 <= k < j - pos implies rem[k] != '.' by {
        assert(s[pos + k] != '.');
    }
    if fo < j - pos {
        assert(rem[fo] == '.');
        assert(s[pos + fo] != '.');
    }
    let cs = split_dots(rem)[0];
    assert(cs == rem.take(fo));
    assert(cs =~= s.subrange(pos, pos + fo));
    let i0 = done.len() as int;
    assert(decode_segments(s)[i0] == cs);
    if j == digit_start && (j == s.len() || s[j] == '.') {
        // the segment ends right where its digits would begin
        if j < s.len() {
            assert(rem[j - pos] == '.');
            lemma_first_occurrence_is(rem, '.', j - pos);
        } else {
            lemma_first_occurrence_is(rem, '.', j - pos);
        }
        assert(fo == j - pos);
        assert(digits_part(cs) =~= s.subrange(digit_start, j));
        assert(digits_part(cs).len() == 0);
        assert(!valid_arc_segment(cs));
    } else {
        // the scan stopped inside the segment, at j
        assert(s[j] != '.');
        if fo == j - pos {
            assert(rem[fo] == '.');
        }
        assert(fo >= j - pos + 1);
        let dp = digits_part(cs);
        assert(dp =~= s.subrange(digit_start, pos + fo));
        if !is_digit_char(s[j]) {
            assert(dp[j - digit_start] == s[j]);
            assert(!is_digit_seq(dp));
            assert(!valid_arc_segment(cs));
        } else {
            // the digits seen so far already exceed 32 bits
            if is_digit_seq(dp) {
                assert(s.subrange(digit_start, j + 1) =~= dp.take(j + 1 - digit_start));
                lemma_dec_value_prefix(dp, j + 1 - digit_start);
                assert(dec_value(dp) > u32::MAX);
                assert(!valid_arc_segment(cs));
            } else {
                assert(!valid_arc_segment(cs));
            }
        }
    }
    assert(!segments_ok(decode_segments(s)));
}

/// A scan that reaches a dot or the end of the string with at least one
/// digit has found a valid segment: the head of the remaining split.
proof fn lemma_segment_step(s: Seq<char>, pos: int, digit_start: int, j: int)
    requires
        scan_state(s, pos, digit_start, j),
        j < s.len() ==> s[j] == '.',
        j > digit_start,
        dec_value(s.subrange(digit_start, j)) <= u32::MAX,
    ensures
        ({
            let cs = s.subrange(pos, j);
            &&& valid_arc_segment(cs)
            &&& arc_of_segment(cs) == dec_value(s.subrange(digit_start, j))
            &&& (j == s.len() ==> split_dots(s.skip(pos)) == seq![cs])
            &&& (j < s.len() ==> split_dots(s.skip(pos)) == seq![cs] + split_dots(s.skip(j + 1)))
        }),
{
    let rem = s.skip(pos);
    lemma_split_dots_structure(rem);
    assert forall|k: int| 0 <= k < j - pos implies rem[k] != '.' by {
        assert(s[pos + k] != '.');
    }
    lemma_first_occurrence_is(rem, '.', j - pos);
    let fo = first_occurrence(rem, '.');
    assert(fo == j - pos);
    let cs = s.subrange(pos, j);
    assert(rem.take(fo) =~= cs);
    let dp = digits_part(cs);
    assert(dp =~= s.subrange(digit_start, j));
    assert(is_digit_seq(dp)) by {
        assert(forall|k: int| 0 <= k < dp.len() ==> dp[k] == s[digit_start + k] && is_digit_char(
            s[digit_start + k],
        ));
    }
    if j < s.len() {
        assert(rem.skip(fo + 1) =~= s.skip(j + 1));
    } else {
        assert(rem =~= cs);
    }
}

// ---------------------------------------------------------------------------
// Executable codec
// ---------------------------------------------------------------------------

/// The arc digit a character stands for, if any.
fn char_digit(c: char) -> (r: Option<u32>)
    ensures
        r is Some <==> is_digit_char(c),
        r matches Some(d) ==> d == digit_value(c) && d < 10,
{
    if '0' <= c && c <= '9' {
        Some(c as u32 - '0' as u32)
    } else {
        None
    }
}

fn push_digit(s: &mut String, d: u32)
    requires
        d < 10,
    ensures
        final(s)@ == old(s)@ + seq![digit_char(d as nat)],
{
    proof {
        reveal_strlit("0");
        reveal_strlit("1");
        reveal_strlit("2");
        reveal_strlit("3");
        reveal_strlit("4");
        reveal_strlit("5");
        reveal_strlit("6");
        reveal_strlit("7");
        reveal_strlit("8");
        reveal_strlit("9");
    }
    if d == 0 {
        s.append("0");
    } else if d == 1 {
        s.append("1");
    } else if d == 2 {
        s.append("2");
    } else if d == 3 {
        s.append("3");
    } else if d == 4 {
        s.append("4");
    } else if d == 5 {
        s.append("5");
    } else if d == 6 {
        s.append("6");
    } else if d == 7 {
        s.append("7");
    } else if d == 8 {
        s.append("8");
    } else {
        s.append("9");
    }
    proof {
        assert(final(s)@ =~= old(s)@ + seq![digit_char(d as nat)]);
    }
}

/// Renders `n` in decimal, most significant digit first.
fn u32_to_dec(n: u32) -> (r: String)
    ensures
        r@ == dec_string(n as nat),
    decreases n,
{
    if n < 10 {
        let mut s = String::new();
        push_digit(&mut s, n);
        proof {
            assert(s@ =~= seq![digit_char(n as nat)]);
        }
        s
    } else {
        let mut s = u32_to_dec(n / 10);
        push_digit(&mut s, n % 10);
        proof {
            assert(s@ =~= dec_string((n / 10) as nat) + seq![digit_char((n % 10) as nat)]);
        }
        s
    }
}

/// The codec's two directions, as the original exposes them on the
/// protocol stack's identifier type.
pub trait ObjectIdentifierExt {
    /// The arcs of this identifier, as the contracts speak of them.
    spec fn arcs(&self) -> Seq<u32>;

    /// Renders the identifier in the canonical leading-dot form,
    /// `".1.3.6.1"` for the arcs `[1, 3, 6, 1]`.
    fn to_string(&self) -> (r: String)
        ensures
            r@ == encode_arcs(self.arcs()),
    ;

    /// Decodes dotted-decimal text, tolerating one leading dot. Exactly
    /// the strings satisfying `oid_decodes` succeed; every other input
    /// is reported as `ParseOidError` carrying that text verbatim.
    fn from_str(oid: &str) -> (r: Result<rasn::types::ObjectIdentifier, Error>)
        ensures
            r is Ok <==> oid_decodes(oid@),
            r matches Ok(o) ==> oid_arcs(o) == oid_decode_arcs(oid@),
            r matches Err(e) ==> (e matches Error::ParseOidError(t) && t@ == oid@),
    ;
}

impl ObjectIdentifierExt for rasn::types::ObjectIdentifier {
    open spec fn arcs(&self) -> Seq<u32> {
        oid_arcs(*self)
    }

    fn to_string(&self) -> (r: String) {
        let arcs = oid_components(self);
        let n = arcs.len();
        let mut r = String::new();
        let mut i: usize = 0;
        proof {
            assert(arcs@.skip(0) =~= arcs@);
        }
        while i < n
            invariant
                i <= n,
                n == arcs@.len(),
                arcs@ == oid_arcs(*self),
                encode_arcs(oid_arcs(*self)) == r@ + encode_arcs(arcs@.skip(i as int)),
            decreases n - i,
        {
            let ghost r0 = r@;
            r.append(".");
            let ds = u32_to_dec(arcs[i]);
            r.append(ds.as_str());
            proof {
                reveal_strlit(".");
                let rest = arcs@.skip(i as int);
                assert(rest[0] == arcs@[i as int]);
                assert(rest.drop_first() =~= arcs@.skip(i as int + 1));
                assert(r@ =~= (r0 + ("."@)) + ds@);
                assert(("."@) =~= seq!['.']);
                assert(r@ + encode_arcs(arcs@.skip(i as int + 1)) =~= r0 + encode_arcs(rest));
            }
            i += 1;
        }
        proof {
            assert(arcs@.skip(n as int) =~= Seq::<u32>::empty());
        }
        r
    }

    fn from_str(oid: &str) -> (r: Result<rasn::types::ObjectIdentifier, Error>) {
        let ghost s = oid@;
        let n = oid.unicode_len();
        let mut arcs: Vec<u32> = Vec::new();
        let ghost mut done: Seq<Seq<char>> = Seq::empty();
        let mut pos: usize = 0;
        if n == 0 {
            proof {
                assert(decode_segments(s) =~= Seq::<Seq<char>>::empty());
                assert(oid_decode_arcs(s).len() == 0);
            }
            return Err(Error::ParseOidError(oid.to_owned()));
        }
        if oid.get_char(0) == '.' {
            pos = 1;
            proof {
                assert(s.drop_first() =~= s.skip(1));
                lemma_split_dots_len(s.skip(1));
                assert(decode_segments(s) =~= split_dots(s.skip(1)));
            }
        } else {
            proof {
                lemma_split_dots_len(s.drop_first());
                assert(split_dots(s)[0] == seq![s[0]] + split_dots(s.drop_first())[0]);
                assert(split_dots(s)[0].len() > 0);
                assert(s.skip(0) =~= s);
            }
        }
        proof {
            assert(decode_segments(s) =~= done + split_dots(s.skip(pos as int)));
        }
        loop
            invariant_except_break
                decode_segments(s) == done + split_dots(s.skip(pos as int)),
            invariant
                s == oid@,
                n == s.len(),
                pos <= n,
                segments_ok(done),
                arcs@ == arcs_of_segments(done),
            ensures
                s == oid@,
                decode_segments(s) == done,
                segments_ok(done),
                arcs@ == arcs_of_segments(done),
            decreases n - pos,
        {
            let ghost pos0 = pos as int;
            let ghost done0 = done;
            let mut j = pos;
            if j < n && oid.get_char(j) == '+' {
                j = j + 1;
            }
            let digit_start = j;
            let mut acc: u64 = 0;
            proof {
                assert(s.subrange(digit_start as int, digit_start as int) =~= Seq::<
                    char,
                >::empty());
                assert(scan_state(s, pos as int, digit_start as int, j as int));
            }
            while j < n
                invariant
                    s == oid@,
                    n == s.len(),
                    pos <= n,
                    digit_start <= j <= n,
                    scan_state(s, pos as int, digit_start as int, j as int),
                    acc <= u32::MAX as u64,
                    acc as nat == dec_value(s.subrange(digit_start as int, j as int)),
                    decode_segments(s) == done + split_dots(s.skip(pos as int)),
                ensures
                    s == oid@,
                    digit_start <= j <= n,
                    scan_state(s, pos as int, digit_start as int, j as int),
                    j == n || s[j as int] == '.',
                    acc <= u32::MAX as u64,
                    acc as nat == dec_value(s.subrange(digit_start as int, j as int)),
                decreases n - j,
            {
                let c = oid.get_char(j);
                if c == '.' {
                    break ;
                }
                match char_digit(c) {
                    Some(d) => {
                        let next = acc * 10 + d as u64;
                        if next > u32::MAX as u64 {
                            proof {
                                assert(s.subrange(digit_start as int, j as int + 1) =~= s.subrange(
                                    digit_start as int,
                                    j as int,
                                ).push(s[j as int]));
                                lemma_dec_value_push(
                                    s.subrange(digit_start as int, j as int),
                                    s[j as int],
                                );
                                lemma_segment_invalid(
                                    s,
                                    pos as int,
                                    digit_start as int,
                                    j as int,
                                    done,
                                );
                            }
                            return Err(Error::ParseOidError(oid.to_owned()));
                        }
                        proof {
                            assert(s.subrange(digit_start as int, j as int + 1) =~= s.subrange(
                                digit_start as int,
                                j as int,
                            ).push(s[j as int]));
                            lemma_dec_value_push(
                                s.subrange(digit_start as int, j as int),
                                s[j as int],
                            );
                        }
                        acc = next;
                        j = j + 1;
                    },
                    None => {
                        proof {
                            lemma_segment_invalid(s, pos as int, digit_start as int, j as int, done);
                        }
                        return Err(Error::ParseOidError(oid.to_owned()));
                    },
                }
            }
            if j == digit_start {
                proof {
                    lemma_segment_invalid(s, pos as int, digit_start as int, j as int, done);
                }
                return Err(Error::ParseOidError(oid.to_owned()));
            }
            let arc: u32 = acc as u32;
            arcs.push(arc);
            proof {
                lemma_segment_step(s, pos as int, digit_start as int, j as int);
                let cs = s.subrange(pos as int, j as int);
                done = done0.push(cs);
                assert(arcs@ =~= arcs_of_segments(done)) by {
                    assert(arcs@.len() == done.len());
                    assert(forall|k: int|
                        0 <= k < done0.len() ==> arcs_of_segments(done)[k] == arc_of_segment(
                            #[trigger] done0[k],
                        ));
                    assert(arcs_of_segments(done)[done0.len() as int] == arc_of_segment(cs));
                }
                assert(segments_ok(done)) by {
                    assert(forall|k: int| 0 <= k < done0.len() ==> #[trigger] done[k] == done0[k]);
                }
            }
            if j == n {
                proof {
                    let cs = s.subrange(pos0, j as int);
                    assert(done == done0.push(cs));
                    assert(split_dots(s.skip(pos0)) == seq![cs]);
                    assert(decode_segments(s) =~= done);
                }
                break ;
            }
            pos = j + 1;
            proof {
                let cs = s.subrange(pos0, j as int);
                assert(done == done0.push(cs));
                assert(split_dots(s.skip(pos0)) == seq![cs] + split_dots(s.skip(j as int + 1)));
                assert(decode_segments(s) =~= done + split_dots(s.skip(pos as int)));
            }
        }
        proof {
            assert(oid_decode_arcs(s) == arcs@);
        }
        match oid_new(arcs) {
            Some(o) => Ok(o),
            None => Err(Error::ParseOidError(oid.to_owned())),
        }
    }
}

} // verus!
