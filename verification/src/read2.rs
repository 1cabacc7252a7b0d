//! Read v2 clinical codes.
//!
//! A Read code is a fixed-width, 5-character value whose characters are drawn
//! from `[A-Za-z0-9.]`. The `.` character is a wildcard standing for "any
//! descendant", so the hierarchy is implicit in the code text itself: `2X...`
//! is a parent of `2X3..` and of `2XFAD`. A custom total order, under which
//! `.` sorts before every other character, places every ancestor immediately
//! before its descendants; descendant queries are range scans under it.

mod codeset;
mod filter;
mod termcodeset;
mod termset;
mod thesaurus;

pub use codeset::{ac_patterns, code_byte_seqs, code_lines_valid, codes_sorted, codes_wf, is_substring_of, line_code_set, spec_lines, spec_render_codes, CodeSet, CodeSetMatcher};
pub use filter::{bare_run, compiled_from, part_views, regex_accepts, regex_compiles, spec_codegen, spec_compile, spec_escape, spec_filter_matches, spec_fs_matches, spec_group, spec_is_bare, spec_is_meta, spec_is_quote, spec_is_ws, spec_pattern_matches, spec_render_parts, spec_term_regex, spec_terms, spec_tokens, str_to_chars, tok_cons, tok_part, tok_views, until_quote, ws_run, Filter, FilterSet, Term, TermFilter, TermPart, TermPartV, Tok, TokV};
pub use termcodeset::{spec_entry_matched, spec_extra, spec_matching_codes, spec_missing, spec_missing_codes, spec_unconsidered, spec_unconsidered_texts, spec_unmatched_descendant, CheckReport, TermCodeSet};
pub use termset::{lemma_add_remove_term, lemma_include_edit_restores, lemma_match_determined_by_terms, lemma_remove_absent, lemma_remove_compiles, spec_codegen_of, spec_remove_term, TermSet, Terminology, User};
pub use thesaurus::{clone_descriptions, descendant_pred, entries_from, entries_match, entries_sorted, entry_in, is_descendant, lemma_key_unique, ThEntry, Thesaurus};

use vstd::prelude::*;

verus! {

/// A clinical-code character is ASCII alphanumeric or the `.` wildcard.
pub open spec fn spec_is_read_ch(b: u8) -> bool {
    (97 <= b <= 122)  // a-z
    || (65 <= b <= 90)  // A-Z
    || (48 <= b <= 57)  // 0-9
    || b == 46  // .
}

/// Whether a byte is a valid Read code character (`[A-Za-z0-9.]`).
pub fn is_read_ch(b: u8) -> (r: bool)
    ensures
        r == spec_is_read_ch(b),
{
    (97 <= b && b <= 122) || (65 <= b && b <= 90) || (48 <= b && b <= 57) || b == 46
}

/// An ASCII decimal digit.
pub open spec fn spec_is_digit(b: u8) -> bool {
    48 <= b <= 57
}

/// A well-formed 5-byte Read code.
pub open spec fn valid_code_bytes(v: Seq<u8>) -> bool {
    v.len() == 5 && (forall|i: int| 0 <= i < 5 ==> spec_is_read_ch(#[trigger] v[i]))
}

/// A 7-byte synonym form: a 5-byte code followed by two decimal digits.
pub open spec fn valid_synonym_bytes(v: Seq<u8>) -> bool {
    v.len() == 7 && (forall|i: int| 0 <= i < 5 ==> spec_is_read_ch(#[trigger] v[i]))
        && spec_is_digit(v[5]) && spec_is_digit(v[6])
}

/// Rejection of malformed input: a code whose length or characters are wrong,
/// or a filter expression that does not lex or parse.
#[derive(Clone, Copy, PartialEq, Eq, Structural, Debug)]
pub enum ParseError {
    /// A code string of the wrong length or with a character outside
    /// `[A-Za-z0-9.]` (or a bad synonym suffix).
    InvalidFormat,
    /// A filter expression with a quote that is never closed.
    UnterminatedQuote,
    /// A filter expression with an empty quoted span.
    EmptyQuote,
    /// A filter expression with no term at all.
    EmptyFilter,
}

/// With Read v2, the codes themselves expose the hierarchical structure.
///
/// For example `2X...` is a parent of `2X3..` or `2XFAD` (made up codes).
#[derive(Clone, Copy, Debug, Hash)]
pub struct ReadCode {
    bytes: [u8; 5],
}

impl View for ReadCode {
    type V = Seq<u8>;

    closed spec fn view(&self) -> Seq<u8> {
        self.bytes@
    }
}

impl PartialEq for ReadCode {
    fn eq(&self, other: &ReadCode) -> (r: bool) {
        proof {
            broadcast use vstd::array::group_array_axioms;
        }
        let r = self.bytes[0] == other.bytes[0] && self.bytes[1] == other.bytes[1]
            && self.bytes[2] == other.bytes[2] && self.bytes[3] == other.bytes[3]
            && self.bytes[4] == other.bytes[4];
        proof {
            if r {
                assert(self.bytes@ =~= other.bytes@);
                assert(self.bytes =~= other.bytes);
            }
        }
        r
    }
}

impl vstd::std_specs::cmp::PartialEqSpecImpl for ReadCode {
    open spec fn obeys_eq_spec() -> bool {
        true
    }

    open spec fn eq_spec(&self, other: &ReadCode) -> bool {
        self == other
    }
}

impl Eq for ReadCode {

}

/// Two codes with the same five bytes are the same code.
pub proof fn lemma_code_view_eq(c1: ReadCode, c2: ReadCode)
    requires
        c1@ == c2@,
    ensures
        c1 == c2,
{
    broadcast use vstd::array::group_array_axioms;

    assert(c1@ =~= c2@);
    assert(c1.bytes =~= c2.bytes);
}

/// The sort key of one character: `.` sorts before everything else.
pub open spec fn ch_key(b: u8) -> u8 {
    if b == 46 {
        0
    } else {
        b
    }
}

/// Positions `0 <= j < n` agree in `a` and `b`.
pub open spec fn agree_to(a: Seq<u8>, b: Seq<u8>, n: int) -> bool {
    forall|j: int| 0 <= j < n ==> a[j] == b[j]
}

/// The custom code order: at the first differing position, `.` sorts before
/// every other character, and other characters compare by their byte value.
pub open spec fn spec_code_lt(a: Seq<u8>, b: Seq<u8>) -> bool {
    exists|i: int| 0 <= i < 5 && #[trigger] agree_to(a, b, i) && ch_key(a[i]) < ch_key(b[i])
}

/// The first position at or after `j` where `a` and `b` differ, or 5.
pub open spec fn first_diff_from(a: Seq<u8>, b: Seq<u8>, j: int) -> int
    decreases 5 - j,
{
    if j < 0 || j >= 5 {
        5
    } else if a[j] != b[j] {
        j
    } else {
        first_diff_from(a, b, j + 1)
    }
}

/// `first_diff_from` finds the first differing position: the sequences agree
/// strictly before it, and differ at it unless it is 5.
pub proof fn lemma_first_diff(a: Seq<u8>, b: Seq<u8>, j: int)
    requires
        0 <= j <= 5,
        agree_to(a, b, j),
    ensures
        j <= first_diff_from(a, b, j) <= 5,
        agree_to(a, b, first_diff_from(a, b, j)),
        first_diff_from(a, b, j) < 5 ==> a[first_diff_from(a, b, j)] != b[first_diff_from(a, b, j)],
    decreases 5 - j,
{
    if j < 5 && a[j] == b[j] {
        assert(agree_to(a, b, j + 1));
        lemma_first_diff(a, b, j + 1);
    }
}

/// Under the wildcard-first order, two well-formed codes are related in
/// exactly one of three ways: less, equal (as byte sequences), or greater.
pub proof fn lemma_code_order_trichotomy(a: Seq<u8>, b: Seq<u8>)
    requires
        valid_code_bytes(a),
        valid_code_bytes(b),
    ensures
        spec_code_lt(a, b) || spec_code_lt(b, a) || a =~= b,
        spec_code_lt(a, b) ==> !spec_code_lt(b, a) && !(a =~= b),
        spec_code_lt(b, a) ==> !spec_code_lt(a, b) && !(a =~= b),
        a =~= b ==> !spec_code_lt(a, b) && !spec_code_lt(b, a),
{
    assert(agree_to(a, b, 0));
    lemma_first_diff(a, b, 0);
    let d = first_diff_from(a, b, 0);
    if d == 5 {
        assert(a =~= b);
        assert forall|i: int| 0 <= i < 5 && #[trigger] agree_to(a, b, i) implies
            !(ch_key(a[i]) < ch_key(b[i])) by {}
        assert(!spec_code_lt(a, b));
        assert(!spec_code_lt(b, a));
    } else {
        assert(a[d] != b[d]);
        // the per-character key is injective on valid characters
        assert(ch_key(a[d]) != ch_key(b[d]));
        assert(!(a =~= b));
        if ch_key(a[d]) < ch_key(b[d]) {
            assert(spec_code_lt(a, b));
            assert forall|i: int| 0 <= i < 5 && #[trigger] agree_to(b, a, i) implies
                !(ch_key(b[i]) < ch_key(a[i])) by {
                if i < d {
                    assert(b[i] == a[i]);
                } else {
                    assert(agree_to(b, a, i) ==> i <= d) by {
                        if i > d {
                            assert(b[d] == a[d]);
                        }
                    }
                }
            }
            assert(!spec_code_lt(b, a));
        } else {
            assert(ch_key(b[d]) < ch_key(a[d]));
            assert(agree_to(b, a, d));
            assert(0 <= d < 5 && agree_to(b, a, d) && ch_key(b[d]) < ch_key(a[d]));
            assert(spec_code_lt(b, a));
            assert forall|i: int| 0 <= i < 5 && #[trigger] agree_to(a, b, i) implies
                !(ch_key(a[i]) < ch_key(b[i])) by {
                if i > d {
                    assert(a[d] == b[d]);
                }
            }
            assert(!spec_code_lt(a, b));
        }
    }
}

/// The custom code order is transitive.
pub proof fn lemma_code_order_transitive(a: Seq<u8>, b: Seq<u8>, c: Seq<u8>)
    requires
        spec_code_lt(a, b),
        spec_code_lt(b, c),
    ensures
        spec_code_lt(a, c),
{
    let i = choose|i: int| 0 <= i < 5 && #[trigger] agree_to(a, b, i) && ch_key(a[i]) < ch_key(b[i]);
    let j = choose|j: int| 0 <= j < 5 && #[trigger] agree_to(b, c, j) && ch_key(b[j]) < ch_key(c[j]);
    let k = if i <= j { i } else { j };
    assert(agree_to(a, c, k));
    assert(ch_key(a[k]) < ch_key(c[k]));
    assert(0 <= k < 5 && agree_to(a, c, k) && ch_key(a[k]) < ch_key(c[k]));
}

impl ReadCode {
    /// All five characters are valid Read code characters.
    pub open spec fn wf(self) -> bool {
        valid_code_bytes(self@)
    }

    /// A code has children exactly when its 5th character is the wildcard.
    pub open spec fn spec_has_children(self) -> bool {
        self@[4] == 46
    }

    pub fn has_children(self) -> (r: bool)
        ensures
            r == self.spec_has_children(),
    {
        self.bytes[4] == 46
    }

    /// `c` is a child (descendant) of `p`: they differ somewhere, and agree at
    /// every position where `p` is not the wildcard.
    pub open spec fn spec_is_child_of(c: Seq<u8>, p: Seq<u8>) -> bool {
        (exists|i: int| 0 <= i < 5 && #[trigger] c[i] != p[i])
        && (forall|i: int| 0 <= i < 5 && #[trigger] p[i] != 46 ==> c[i] == p[i])
    }

    /// Whether `self` is a descendant of `parent`. A code is never a child of
    /// itself.
    pub fn is_child_of(self, parent: ReadCode) -> (r: bool)
        ensures
            r == Self::spec_is_child_of(self@, parent@),
    {
        let mut i: usize = 0;
        let mut differs = false;
        while i < 5
            invariant
                0 <= i <= 5,
                differs == exists|j: int| 0 <= j < i && #[trigger] self@[j] != parent@[j],
                forall|j: int| 0 <= j < i && #[trigger] parent@[j] != 46 ==> self@[j] == parent@[j],
            decreases 5 - i,
        {
            let s = self.bytes[i];
            let p = parent.bytes[i];
            if s != p {
                if p != 46 {
                    proof {
                        let w: int = i as int;
                        assert(parent@[w] != 46 && self@[w] != parent@[w]);
                    }
                    return false;
                }
                proof {
                    let w: int = i as int;
                    assert(self@[w] != parent@[w]);
                }
                differs = true;
            }
            i += 1;
        }
        differs
    }

    /// Whether `child` is a descendant of `self`.
    pub fn is_parent_of(self, child: ReadCode) -> (r: bool)
        ensures
            r == Self::spec_is_child_of(child@, self@),
    {
        child.is_child_of(self)
    }

    /// The custom order on codes: at the first differing position, the `.`
    /// wildcard sorts before every other character. Under this order a parent
    /// sorts immediately before all of its descendants.
    pub fn lt(&self, other: &ReadCode) -> (r: bool)
        ensures
            r == spec_code_lt(self@, other@),
    {
        let mut i: usize = 0;
        while i < 5
            invariant
                0 <= i <= 5,
                agree_to(self@, other@, i as int),
            decreases 5 - i,
        {
            let x = self.bytes[i];
            let y = other.bytes[i];
            if x != y {
                let kx: u8 = if x == 46 { 0 } else { x };
                let ky: u8 = if y == 46 { 0 } else { y };
                proof {
                    let w: int = i as int;
                    if kx < ky {
                        assert(0 <= w < 5 && agree_to(self@, other@, w)
                            && ch_key(self@[w]) < ch_key(other@[w]));
                    } else {
                        assert forall|m: int| 0 <= m < 5 && #[trigger] agree_to(self@, other@, m)
                            implies !(ch_key(self@[m]) < ch_key(other@[m])) by {
                            if m > w {
                                assert(self@[w] == other@[w]);
                            }
                        }
                    }
                }
                return kx < ky;
            }
            i += 1;
        }
        proof {
            assert forall|m: int| 0 <= m < 5 && #[trigger] agree_to(self@, other@, m)
                implies !(ch_key(self@[m]) < ch_key(other@[m])) by {
                assert(self@[m] == other@[m]);
            }
        }
        false
    }

    /// `self <= other` under the custom order (for well-formed codes this is
    /// `lt` or byte equality).
    pub fn le(&self, other: &ReadCode) -> (r: bool)
        requires
            self.wf(),
            other.wf(),
        ensures
            r == (spec_code_lt(self@, other@) || self@ =~= other@),
    {
        proof {
            lemma_code_order_trichotomy(self@, other@);
        }
        !other.lt(self)
    }

    /// Parse a code from bytes: either the 5-byte code form, or the 7-byte
    /// synonym form whose 2-digit suffix is discarded.
    pub fn from_bytes(v: &[u8]) -> (r: Result<ReadCode, ParseError>)
        ensures
            valid_code_bytes(v@) ==> (r matches Ok(c) && c@ =~= v@),
            valid_synonym_bytes(v@) ==> (r matches Ok(c) && c@ =~= v@.subrange(0, 5)),
            !valid_code_bytes(v@) && !valid_synonym_bytes(v@) ==> (r matches Err(e)
                && e == ParseError::InvalidFormat),
            r matches Ok(c) ==> c.wf(),
    {
        let n = v.len();
        if n != 5 && n != 7 {
            return Err(ParseError::InvalidFormat);
        }
        let mut i: usize = 0;
        while i < 5
            invariant
                0 <= i <= 5,
                v@.len() == 5 || v@.len() == 7,
                forall|j: int| 0 <= j < i ==> spec_is_read_ch(#[trigger] v@[j]),
            decreases 5 - i,
        {
            if !is_read_ch(v[i]) {
                return Err(ParseError::InvalidFormat);
            }
            i += 1;
        }
        if n == 7 {
            if !(48 <= v[5] && v[5] <= 57) || !(48 <= v[6] && v[6] <= 57) {
                return Err(ParseError::InvalidFormat);
            }
        }
        Ok(ReadCode { bytes: [v[0], v[1], v[2], v[3], v[4]] })
    }

    /// Parse a code from a `Vec` of bytes (as read from a code-list file).
    pub fn from_byte_vec(v: &Vec<u8>) -> (r: Result<ReadCode, ParseError>)
        ensures
            valid_code_bytes(v@) ==> (r matches Ok(c) && c@ =~= v@),
            valid_synonym_bytes(v@) ==> (r matches Ok(c) && c@ =~= v@.subrange(0, 5)),
            !valid_code_bytes(v@) && !valid_synonym_bytes(v@) ==> (r matches Err(e)
                && e == ParseError::InvalidFormat),
            r matches Ok(c) ==> c.wf(),
    {
        Self::from_bytes(v.as_slice())
    }

    /// Parse a code from a string: either the 5-character code form, or the
    /// 7-character synonym form whose 2-digit suffix is discarded.
    pub fn from_str(s: &str) -> (r: Result<ReadCode, ParseError>)
        ensures
            valid_code_chars(s@) ==> (r matches Ok(c) && c@ =~= chars_to_code_bytes(s@)),
            valid_synonym_chars(s@) ==> (r matches Ok(c) && c@ =~= chars_to_code_bytes(s@)),
            !valid_code_chars(s@) && !valid_synonym_chars(s@) ==> (r matches Err(e)
                && e == ParseError::InvalidFormat),
            r matches Ok(c) ==> c.wf(),
    {
        let n = s.unicode_len();
        if n != 5 && n != 7 {
            return Err(ParseError::InvalidFormat);
        }
        let mut bytes: Vec<u8> = Vec::new();
        let mut i: usize = 0;
        while i < 5
            invariant
                0 <= i <= 5,
                s@.len() == 5 || s@.len() == 7,
                bytes@.len() == i,
                forall|j: int| 0 <= j < i ==> spec_is_read_char(#[trigger] s@[j]),
                forall|j: int| 0 <= j < i ==> #[trigger] bytes@[j] == (s@[j] as u32) as u8,
            decreases 5 - i,
        {
            let c = s.get_char(i);
            let u = c as u32;
            if !(u < 128) {
                return Err(ParseError::InvalidFormat);
            }
            let b = u as u8;
            if !is_read_ch(b) {
                return Err(ParseError::InvalidFormat);
            }
            bytes.push(b);
            i += 1;
        }
        if n == 7 {
            let c5 = s.get_char(5) as u32;
            let c6 = s.get_char(6) as u32;
            if !(48 <= c5 && c5 <= 57) || !(48 <= c6 && c6 <= 57) {
                return Err(ParseError::InvalidFormat);
            }
        }
        proof {
            assert(chars_to_code_bytes(s@) =~= bytes@);
        }
        Ok(ReadCode { bytes: [bytes[0], bytes[1], bytes[2], bytes[3], bytes[4]] })
    }

    /// Render the code as its 5-character string.
    pub fn to_string(&self) -> (r: String)
        ensures
            r@ =~= code_chars(self@),
    {
        let mut out = String::new();
        let mut i: usize = 0;
        while i < 5
            invariant
                0 <= i <= 5,
                out@.len() == i,
                forall|j: int| 0 <= j < i ==> #[trigger] out@[j] == self@[j] as char,
            decreases 5 - i,
        {
            push_char(&mut out, self.bytes[i] as char);
            i += 1;
        }
        out
    }

    /// The byte at one position of the code.
    pub fn bytes_at(&self, i: usize) -> (r: u8)
        requires
            i < 5,
        ensures
            r == self@[i as int],
    {
        self.bytes[i]
    }

    /// The five bytes of the code.
    pub fn to_bytes(&self) -> (r: Vec<u8>)
        ensures
            r@ =~= self@,
    {
        let mut out: Vec<u8> = Vec::new();
        out.push(self.bytes[0]);
        out.push(self.bytes[1]);
        out.push(self.bytes[2]);
        out.push(self.bytes[3]);
        out.push(self.bytes[4]);
        out
    }
}

/// Relies on `String::push`: appends one character to the string.
#[verifier::external_body]
pub(crate) fn push_char(s: &mut String, c: char)
    ensures
        final(s)@ == old(s)@.push(c),
{
    s.push(c);
}

/// A valid code character, at the character level.
pub open spec fn spec_is_read_char(c: char) -> bool {
    spec_is_read_ch((c as u32) as u8) && (c as u32) < 128
}

/// A well-formed 5-character code string.
pub open spec fn valid_code_chars(s: Seq<char>) -> bool {
    s.len() == 5 && (forall|i: int| 0 <= i < 5 ==> spec_is_read_char(#[trigger] s[i]))
}

/// A 7-character synonym string: a 5-character code and two decimal digits.
pub open spec fn valid_synonym_chars(s: Seq<char>) -> bool {
    s.len() == 7 && (forall|i: int| 0 <= i < 5 ==> spec_is_read_char(#[trigger] s[i]))
        && spec_is_digit((s[5] as u32) as u8) && (s[5] as u32) < 128
        && spec_is_digit((s[6] as u32) as u8) && (s[6] as u32) < 128
}

/// The first five characters of a code string, as code bytes.
pub open spec fn chars_to_code_bytes(s: Seq<char>) -> Seq<u8> {
    Seq::new(5, |i: int| (s[i] as u32) as u8)
}

/// The five bytes of a code, as characters.
pub open spec fn code_chars(b: Seq<u8>) -> Seq<char> {
    Seq::new(5, |i: int| b[i] as char)
}

/// Law: parsing a well-formed 5-character code string and rendering the code
/// back yields the original string.
pub proof fn lemma_parse_render_roundtrip(s: Seq<char>)
    requires
        valid_code_chars(s),
    ensures
        code_chars(chars_to_code_bytes(s)) =~= s,
{
    assert forall|i: int| 0 <= i < 5 implies code_chars(chars_to_code_bytes(s))[i] == s[i] by {
        let c = s[i];
        assert(spec_is_read_char(c));
        let u = c as u32;
        assert(u < 128);
        let b = u as u8;
        assert(b as u32 == u);
        vstd::utf8::char_u32_cast(c, u);
        assert((u as char) == c);
        assert((b as char) == (u as char));
    }
}

/// Law: a parent sorts strictly before each of its descendants under the
/// custom order.
pub proof fn lemma_parent_lt_child(p: Seq<u8>, c: Seq<u8>)
    requires
        valid_code_bytes(p),
        valid_code_bytes(c),
        ReadCode::spec_is_child_of(c, p),
    ensures
        spec_code_lt(p, c),
{
    assert(agree_to(p, c, 0));
    lemma_first_diff(p, c, 0);
    let d = first_diff_from(p, c, 0);
    assert(d < 5) by {
        if d == 5 {
            let w = choose|i: int| 0 <= i < 5 && #[trigger] c[i] != p[i];
            assert(p[w] == c[w]);
        }
    }
    assert(p[d] != c[d]);
    // at the first difference the parent must hold the wildcard
    assert(p[d] == 46);
    assert(c[d] != 46);
    assert(ch_key(p[d]) == 0 && ch_key(c[d]) >= 48);
    assert(0 <= d < 5 && agree_to(p, c, d) && ch_key(p[d]) < ch_key(c[d]));
}

/// Law: no code is a child of itself. (That `is_child_of` and
/// `is_parent_of` are each other's converse is written into their contracts:
/// both ensure the same `spec_is_child_of` statement, with the roles
/// swapped.)
pub proof fn lemma_never_own_child(a: Seq<u8>)
    ensures
        !ReadCode::spec_is_child_of(a, a),
{
    if ReadCode::spec_is_child_of(a, a) {
        let i = choose|i: int| 0 <= i < 5 && #[trigger] a[i] != a[i];
    }
}

/// Wildcards appear only as a suffix: after the first `.`, everything is `.`.
/// Real Read codes always have this shape.
pub open spec fn canonical_code(a: Seq<u8>) -> bool {
    forall|i: int| 0 <= i < 4 && #[trigger] a[i] == 46 ==> a[i + 1] == 46
}

/// In a canonical code, everything at or after a wildcard is a wildcard.
pub proof fn lemma_canonical_suffix(a: Seq<u8>, i: int, j: int)
    requires
        canonical_code(a),
        0 <= i <= j < 5,
        a[i] == 46,
    ensures
        a[j] == 46,
    decreases j - i,
{
    if i < j {
        lemma_canonical_suffix(a, i + 1, j);
    }
}

/// Law: descendants are contiguous under the custom order. For a canonical
/// parent, any code lying strictly between the parent and one of its
/// descendants is itself a descendant of that parent.
pub proof fn lemma_descendants_contiguous(p: Seq<u8>, c: Seq<u8>, x: Seq<u8>)
    requires
        valid_code_bytes(p),
        valid_code_bytes(c),
        valid_code_bytes(x),
        canonical_code(p),
        ReadCode::spec_is_child_of(c, p),
        spec_code_lt(p, x),
        spec_code_lt(x, c),
    ensures
        ReadCode::spec_is_child_of(x, p),
{
    lemma_code_order_trichotomy(p, x);
    assert(!(p =~= x));
    assert(agree_to(p, x, 0));
    lemma_first_diff(p, x, 0);
    let d = first_diff_from(p, x, 0);
    assert(d < 5) by {
        if d == 5 {
            assert(p =~= x);
        }
    }
    assert(p[d] != x[d]);
    assert(exists|i: int| 0 <= i < 5 && #[trigger] x[i] != p[i]) by {
        assert(x[d] != p[d]);
    }
    if p[d] == 46 {
        // everything from d on is a wildcard in p, and x agrees with p below d
        assert forall|i: int| 0 <= i < 5 && #[trigger] p[i] != 46 implies x[i] == p[i] by {
            if i >= d {
                lemma_canonical_suffix(p, d, i);
            }
        }
    } else {
        // then p has no wildcard before d either, so c and x agree below d,
        // c[d] == p[d], and the order facts collapse into a contradiction
        assert forall|j: int| 0 <= j < d implies p[j] != 46 by {
            if p[j] == 46 {
                lemma_canonical_suffix(p, j, d);
            }
        }
        assert(agree_to(x, c, d)) by {
            assert forall|j: int| 0 <= j < d implies x[j] == c[j] by {
                assert(p[j] != 46);
                assert(c[j] == p[j]);
                assert(x[j] == p[j]);
            }
        }
        assert(c[d] == p[d]);
        // the witness of p < x can only be the first difference d
        let i0 = choose|i: int|
            0 <= i < 5 && #[trigger] agree_to(p, x, i) && ch_key(p[i]) < ch_key(x[i]);
        assert(i0 == d) by {
            if i0 > d {
                assert(p[d] == x[d]);
            }
            if i0 < d {
                assert(ch_key(p[i0]) != ch_key(x[i0]));
                assert(p[i0] != x[i0]);
            }
        }
        assert(ch_key(p[d]) < ch_key(x[d]));
        assert(ch_key(c[d]) < ch_key(x[d]));
        assert(0 <= d < 5 && agree_to(c, x, d) && ch_key(c[d]) < ch_key(x[d])) by {
            assert forall|j: int| 0 <= j < d implies c[j] == x[j] by {
                assert(x[j] == c[j]);
            }
        }
        assert(spec_code_lt(c, x));
        lemma_code_order_trichotomy(x, c);
        assert(false);
    }
}

/// A code/free-text pair: the code as recorded in an event together with the
/// free text (rubric) that was entered beside it.
#[derive(Clone, Debug)]
pub struct CodeRubric {
    pub code: ReadCode,
    pub rubric: String,
}

impl CodeRubric {
    pub fn new(code: ReadCode, rubric: String) -> (r: CodeRubric)
        ensures
            r.code == code,
            r.rubric@ == rubric@,
    {
        CodeRubric { code, rubric }
    }
}

} // verus!
