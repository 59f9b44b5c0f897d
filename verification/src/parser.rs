//! The walk-line parser: one line of SNMP walk output, `OID = TYPE:
//! VALUE`, split into its identifier, its declared type, and its raw
//! value text.
//!
//! The line is cut at its first `=`; both halves are trimmed. The
//! right-hand half is cut at its first `:`, when it has one: the text
//! before it names the data type (unknown names fall back to `Opaque`),
//! the trimmed text after it is the value. Without a `:` the whole half
//! is the value and the type defaults to `String`. The value is never
//! interpreted further; it is carried verbatim.

use vstd::prelude::*;

use crate::asn1::oid_arcs;
use crate::error::Error;
use crate::types::{
    first_occurrence, lemma_first_occurrence_is, oid_decode_arcs, oid_decodes, ObjectIdentifierExt,
    SNMPDataType,
};

verus! {

// ---------------------------------------------------------------------------
// Whitespace and trimming, as `str::trim` performs it
// ---------------------------------------------------------------------------

/// The characters with the Unicode `White_Space` property, which
/// `str::trim` strips from both ends.
pub open spec fn is_white(c: char) -> bool {
    ||| c == ' '
    ||| c == '\t'
    ||| c == '\n'
    ||| c == '\u{0b}'
    ||| c == '\u{0c}'
    ||| c == '\r'
    ||| c == '\u{85}'
    ||| c == '\u{a0}'
    ||| c == '\u{1680}'
    ||| ('\u{2000}' <= c && c <= '\u{200a}')
    ||| c == '\u{2028}'
    ||| c == '\u{2029}'
    ||| c == '\u{202f}'
    ||| c == '\u{205f}'
    ||| c == '\u{3000}'
}

pub open spec fn trim_front(s: Seq<char>) -> Seq<char>
    decreases s.len(),
{
    if s.len() > 0 && is_white(s[0]) {
        trim_front(s.drop_first())
    } else {
        s
    }
}

pub open spec fn trim_back(s: Seq<char>) -> Seq<char>
    decreases s.len(),
{
    if s.len() > 0 && is_white(s.last()) {
        trim_back(s.drop_last())
    } else {
        s
    }
}

/// `s` without leading and trailing whitespace.
pub open spec fn trimmed(s: Seq<char>) -> Seq<char> {
    trim_back(trim_front(s))
}

fn is_white_char(c: char) -> (r: bool)
    ensures
        r == is_white(c),
{
    c == ' ' || c == '\t' || c == '\n' || c == '\u{0b}' || c == '\u{0c}' || c == '\r' || c
        == '\u{85}' || c == '\u{a0}' || c == '\u{1680}' || ('\u{2000}' <= c && c <= '\u{200a}') || c
        == '\u{2028}' || c == '\u{2029}' || c == '\u{202f}' || c == '\u{205f}' || c == '\u{3000}'
}

/// The slice of `s` that `str::trim` would keep.
fn trim_of<'a>(s: &'a str) -> (r: &'a str)
    ensures
        r@ == trimmed(s@),
{
    let n = s.unicode_len();
    let mut i: usize = 0;
    proof {
        assert(s@.subrange(0, n as int) =~= s@);
    }
    loop
        invariant
            i <= n,
            n == s@.len(),
            trim_front(s@) == trim_front(s@.subrange(i as int, n as int)),
        ensures
            i <= n,
            trim_front(s@) == s@.subrange(i as int, n as int),
        decreases n - i,
    {
        if i >= n {
            proof {
                assert(s@.subrange(i as int, n as int) =~= Seq::<char>::empty());
            }
            break ;
        }
        let c = s.get_char(i);
        if !is_white_char(c) {
            proof {
                assert(s@.subrange(i as int, n as int)[0] == s@[i as int]);
            }
            break ;
        }
        proof {
            assert(s@.subrange(i as int, n as int).drop_first() =~= s@.subrange(
                i as int + 1,
                n as int,
            ));
        }
        i = i + 1;
    }
    let mut j = n;
    loop
        invariant
            i <= j <= n,
            n == s@.len(),
            trim_front(s@) == s@.subrange(i as int, n as int),
            trim_back(s@.subrange(i as int, n as int)) == trim_back(
                s@.subrange(i as int, j as int),
            ),
        ensures
            i <= j <= n,
            trim_back(s@.subrange(i as int, n as int)) == s@.subrange(i as int, j as int),
        decreases j,
    {
        if j <= i {
            proof {
                assert(s@.subrange(i as int, j as int) =~= Seq::<char>::empty());
            }
            break ;
        }
        let c = s.get_char(j - 1);
        if !is_white_char(c) {
            proof {
                assert(s@.subrange(i as int, j as int).last() == s@[j as int - 1]);
            }
            break ;
        }
        proof {
            assert(s@.subrange(i as int, j as int).drop_last() =~= s@.subrange(
                i as int,
                j as int - 1,
            ));
        }
        j = j - 1;
    }
    s.substring_char(i, j)
}

// ---------------------------------------------------------------------------
// Searching and comparing
// ---------------------------------------------------------------------------

/// The position of the first occurrence of `c` in `s`, if any.
fn find_char(s: &str, c: char) -> (r: Option<usize>)
    ensures
        r matches Some(i) ==> i as int == first_occurrence(s@, c) && i < s@.len(),
        r is None ==> first_occurrence(s@, c) == s@.len(),
{
    let n = s.unicode_len();
    let mut i: usize = 0;
    loop
        invariant
            i <= n,
            n == s@.len(),
            forall|k: int| 0 <= k < i ==> s@[k] != c,
        decreases n - i,
    {
        if i >= n {
            proof {
                lemma_first_occurrence_is(s@, c, n as int);
            }
            return None;
        }
        if s.get_char(i) == c {
            proof {
                lemma_first_occurrence_is(s@, c, i as int);
            }
            return Some(i);
        }
        i = i + 1;
    }
}

fn str_equals(a: &str, b: &str) -> (r: bool)
    ensures
        r == (a@ == b@),
{
    let na = a.unicode_len();
    let nb = b.unicode_len();
    if na != nb {
        return false;
    }
    let mut i: usize = 0;
    loop
        invariant
            i <= na,
            na == a@.len(),
            nb == b@.len(),
            na == nb,
            forall|k: int| 0 <= k < i ==> a@[k] == b@[k],
        decreases na - i,
    {
        if i >= na {
            proof {
                assert(a@ =~= b@);
            }
            return true;
        }
        if a.get_char(i) != b.get_char(i) {
            return false;
        }
        i = i + 1;
    }
}

// ---------------------------------------------------------------------------
// The declared data type
// ---------------------------------------------------------------------------

/// The data type a keyword before `:` declares. Every keyword outside
/// the known set resolves to `Opaque` — deliberately not an error, so
/// that lines with vendor-specific types still parse.
pub open spec fn keyword_type(kw: Seq<char>) -> SNMPDataType {
    if kw == "INTEGER"@ {
        SNMPDataType::Integer
    } else if kw == "STRING"@ {
        SNMPDataType::String
    } else if kw == "NULL"@ {
        SNMPDataType::Null
    } else if kw == "OID"@ {
        SNMPDataType::Oid
    } else if kw == "IpAddress"@ {
        SNMPDataType::IpAddress
    } else if kw == "Counter32"@ {
        SNMPDataType::Counter32
    } else if kw == "Gauge32"@ {
        SNMPDataType::Gauge32
    } else if kw == "Timeticks"@ {
        SNMPDataType::Timeticks
    } else if kw == "Counter64"@ {
        SNMPDataType::Counter64
    } else {
        SNMPDataType::Opaque
    }
}

fn keyword_data_type(kw: &str) -> (t: SNMPDataType)
    ensures
        t == keyword_type(kw@),
{
    if str_equals(kw, "INTEGER") {
        SNMPDataType::Integer
    } else if str_equals(kw, "STRING") {
        SNMPDataType::String
    } else if str_equals(kw, "NULL") {
        SNMPDataType::Null
    } else if str_equals(kw, "OID") {
        SNMPDataType::Oid
    } else if str_equals(kw, "IpAddress") {
        SNMPDataType::IpAddress
    } else if str_equals(kw, "Counter32") {
        SNMPDataType::Counter32
    } else if str_equals(kw, "Gauge32") {
        SNMPDataType::Gauge32
    } else if str_equals(kw, "Timeticks") {
        SNMPDataType::Timeticks
    } else if str_equals(kw, "Counter64") {
        SNMPDataType::Counter64
    } else {
        SNMPDataType::Opaque
    }
}

// ---------------------------------------------------------------------------
// The line, as specifications
// ---------------------------------------------------------------------------

pub open spec fn line_has_separator(line: Seq<char>) -> bool {
    first_occurrence(line, '=') < line.len()
}

/// The trimmed text left of the first `=`: the dotted-decimal OID.
pub open spec fn line_oid_text(line: Seq<char>) -> Seq<char> {
    trimmed(line.take(first_occurrence(line, '=')))
}

/// The trimmed text right of the first `=`.
pub open spec fn line_rest(line: Seq<char>) -> Seq<char> {
    trimmed(line.skip(first_occurrence(line, '=') + 1))
}

/// The declared data type of the line: the keyword before the first
/// `:` of the right-hand half, or `String` when there is no `:`.
pub open spec fn line_data_type(line: Seq<char>) -> SNMPDataType {
    let rest = line_rest(line);
    if first_occurrence(rest, ':') < rest.len() {
        keyword_type(rest.take(first_occurrence(rest, ':')))
    } else {
        SNMPDataType::String
    }
}

/// The raw value of the line: the trimmed text after the first `:` of
/// the right-hand half, or that whole half when there is no `:`.
pub open spec fn line_value(line: Seq<char>) -> Seq<char> {
    let rest = line_rest(line);
    if first_occurrence(rest, ':') < rest.len() {
        trimmed(rest.skip(first_occurrence(rest, ':') + 1))
    } else {
        rest
    }
}

// ---------------------------------------------------------------------------
// The parser
// ---------------------------------------------------------------------------

/// Parses one line of walk output into (OID, declared type, raw value).
///
/// A line without `=` is rejected as `InvalidLine` carrying the line
/// verbatim; a left-hand side that is not a dotted-decimal OID is
/// rejected as `ParseOidError` carrying that (trimmed) text verbatim.
/// Everything else succeeds.
pub fn parse_snmpwalk_line(line: &str) -> (r: Result<
    (rasn::types::ObjectIdentifier, SNMPDataType, String),
    Error,
>)
    ensures
        r is Ok <==> (line_has_separator(line@) && oid_decodes(line_oid_text(line@))),
        r matches Ok(t) ==> {
            &&& oid_arcs(t.0) == oid_decode_arcs(line_oid_text(line@))
            &&& t.1 == line_data_type(line@)
            &&& t.2@ == line_value(line@)
        },
        !line_has_separator(line@) ==> (r matches Err(Error::InvalidLine(t)) && t@ == line@),
        line_has_separator(line@) && !oid_decodes(line_oid_text(line@)) ==> (r matches Err(
            Error::ParseOidError(t),
        ) && t@ == line_oid_text(line@)),
{
    let n = line.unicode_len();
    match find_char(line, '=') {
        None => Err(Error::InvalidLine(line.to_owned())),
        Some(eq) => {
            let left = trim_of(line.substring_char(0, eq));
            proof {
                assert(line@.subrange(0, eq as int) =~= line@.take(eq as int));
            }
            let rest = trim_of(line.substring_char(eq + 1, n));
            proof {
                assert(line@.subrange(eq as int + 1, n as int) =~= line@.skip(eq as int + 1));
            }
            match rasn::types::ObjectIdentifier::from_str(left) {
                Err(e) => Err(e),
                Ok(o) => {
                    let rn = rest.unicode_len();
                    match find_char(rest, ':') {
                        Some(colon) => {
                            let kw = rest.substring_char(0, colon);
                            proof {
                                assert(rest@.subrange(0, colon as int) =~= rest@.take(
                                    colon as int,
                                ));
                            }
                            let dt = keyword_data_type(kw);
                            let value = trim_of(rest.substring_char(colon + 1, rn));
                            proof {
                                assert(rest@.subrange(colon as int + 1, rn as int) =~= rest@.skip(
                                    colon as int + 1,
                                ));
                            }
                            Ok((o, dt, value.to_owned()))
                        },
                        None => Ok((o, SNMPDataType::String, rest.to_owned())),
                    }
                },
            }
        },
    }
}

} // verus!
