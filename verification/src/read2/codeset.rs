//! A set of Read codes, held as a strictly sorted vector under the custom
//! wildcard-first order, and its text format: one code per line.

use vstd::prelude::*;

use crate::read2::{
    lemma_code_order_transitive, lemma_code_order_trichotomy, lemma_code_view_eq, spec_code_lt,
    spec_is_read_ch, valid_code_bytes, valid_synonym_bytes, ParseError, ReadCode,
};

verus! {

/// A sequence of codes that is strictly increasing under the custom order.
pub open spec fn codes_sorted(s: Seq<ReadCode>) -> bool {
    forall|i: int, j: int|
        0 <= i < j < s.len() ==> spec_code_lt(#[trigger] s[i]@, #[trigger] s[j]@)
}

/// Every code in the sequence is well-formed.
pub open spec fn codes_wf(s: Seq<ReadCode>) -> bool {
    forall|i: int| 0 <= i < s.len() ==> (#[trigger] s[i]).wf()
}

/// The text form of a code list: each code's five bytes followed by a
/// newline.
pub open spec fn spec_render_codes(s: Seq<ReadCode>) -> Seq<u8>
    decreases s.len(),
{
    if s.len() == 0 {
        Seq::empty()
    } else {
        s.first()@ + seq![10u8] + spec_render_codes(s.drop_first())
    }
}

/// Rendering one more code appends its bytes and a newline.
pub proof fn lemma_render_push(s: Seq<ReadCode>, c: ReadCode)
    ensures
        spec_render_codes(s.push(c)) =~= spec_render_codes(s) + c@ + seq![10u8],
    decreases s.len(),
{
    if s.len() == 0 {
        assert(s.push(c).first() == c);
        assert(s.push(c).drop_first() =~= Seq::<ReadCode>::empty());
        assert(spec_render_codes(s.push(c).drop_first()) =~= Seq::<u8>::empty());
        assert(spec_render_codes(s.push(c)) =~= c@ + seq![10u8] + spec_render_codes(
            s.push(c).drop_first()));
        assert(spec_render_codes(s) =~= Seq::<u8>::empty());
    } else {
        assert(s.push(c).first() == s.first());
        assert(s.push(c).drop_first() =~= s.drop_first().push(c));
        assert(spec_render_codes(s.push(c)) =~= s.first()@ + seq![10u8] + spec_render_codes(
            s.drop_first().push(c)));
        lemma_render_push(s.drop_first(), c);
    }
}

/// The position of the first newline at or after `i`, or the length.
pub open spec fn find_nl(b: Seq<u8>, i: nat) -> nat
    decreases b.len() - i,
{
    if i >= b.len() {
        b.len()
    } else if b[i as int] == 10 {
        i
    } else {
        find_nl(b, i + 1)
    }
}

/// `find_nl` returns the position of the first newline at or after `i`.
pub proof fn lemma_find_nl_is(b: Seq<u8>, i: nat, m: nat)
    requires
        i <= m <= b.len(),
        forall|k: int| i <= k < m ==> b[k] != 10,
        m == b.len() || b[m as int] == 10,
    ensures
        find_nl(b, i) == m,
    decreases m - i,
{
    if i < m {
        lemma_find_nl_is(b, i + 1, m);
    }
}

/// The lines of a byte text, split at newlines; a final segment appears only
/// when it is not empty.
pub open spec fn spec_lines(b: Seq<u8>) -> Seq<Seq<u8>>
    decreases b.len(),
{
    if b.len() == 0 {
        Seq::empty()
    } else {
        let j = find_nl(b, 0);
        if j >= b.len() {
            seq![b]
        } else {
            seq![b.subrange(0, j as int)] + spec_lines(b.subrange(j as int + 1, b.len() as int))
        }
    }
}

/// Every line is a well-formed code or synonym.
pub open spec fn code_lines_valid(ls: Seq<Seq<u8>>) -> bool {
    forall|i: int| 0 <= i < ls.len() ==> valid_code_bytes(#[trigger] ls[i])
        || valid_synonym_bytes(ls[i])
}

/// The set of 5-byte codes named by the lines.
pub open spec fn line_code_set(ls: Seq<Seq<u8>>) -> Set<Seq<u8>> {
    Set::new(|v: Seq<u8>| exists|k: int| 0 <= k < ls.len() && (#[trigger] ls[k]).take(5) == v)
}

/// One more line adds its code to the set.
pub proof fn lemma_line_code_set_push(ls: Seq<Seq<u8>>, l: Seq<u8>)
    ensures
        line_code_set(ls.push(l)) =~= line_code_set(ls).insert(l.take(5)),
{
    assert forall|v: Seq<u8>| line_code_set(ls.push(l)).contains(v) implies
        line_code_set(ls).insert(l.take(5)).contains(v) by {
        let k = choose|k: int| 0 <= k < ls.push(l).len() && (#[trigger] ls.push(l)[k]).take(5) == v;
        if k < ls.len() {
            assert(ls[k].take(5) == v);
        }
    }
    assert forall|v: Seq<u8>| line_code_set(ls).insert(l.take(5)).contains(v) implies
        line_code_set(ls.push(l)).contains(v) by {
        if v == l.take(5) {
            assert(ls.push(l)[ls.len() as int].take(5) == v);
        } else {
            let k = choose|k: int| 0 <= k < ls.len() && (#[trigger] ls[k]).take(5) == v;
            assert(ls.push(l)[k].take(5) == v);
        }
    }
}

/// Rendering well-formed codes gives one line per code, holding its bytes.
pub proof fn lemma_render_lines(s: Seq<ReadCode>)
    requires
        codes_wf(s),
    ensures
        spec_lines(spec_render_codes(s)) =~= s.map_values(|c: ReadCode| c@),
    decreases s.len(),
{
    let f = |c: ReadCode| c@;
    if s.len() == 0 {
    } else {
        let c0 = s.first();
        let rest = s.drop_first();
        let b = spec_render_codes(s);
        assert(c0.wf());
        assert(b =~= c0@ + seq![10u8] + spec_render_codes(rest));
        assert(b.len() == 6 + spec_render_codes(rest).len());
        assert forall|k: int| 0 <= k < 5 implies b[k] != 10 by {
            assert(b[k] == c0@[k]);
            assert(spec_is_read_ch(c0@[k]));
        }
        assert(b[5] == 10);
        lemma_find_nl_is(b, 0, 5);
        assert(b.subrange(0, 5) =~= c0@);
        assert(b.subrange(6, b.len() as int) =~= spec_render_codes(rest));
        assert(codes_wf(rest)) by {
            assert forall|i: int| 0 <= i < rest.len() implies (#[trigger] rest[i]).wf() by {
                assert(rest[i] == s[i + 1]);
            }
        }
        lemma_render_lines(rest);
        assert(s.map_values(f) =~= seq![c0@] + rest.map_values(f));
    }
}

/// Law: saving a code set and loading the text back yields exactly the same
/// set of codes (order-independent equality).
pub proof fn lemma_save_load_roundtrip(cs: &CodeSet)
    requires
        cs.wf(),
    ensures
        code_lines_valid(spec_lines(spec_render_codes(cs@))),
        line_code_set(spec_lines(spec_render_codes(cs@))) =~= cs.byte_set(),
{
    let ls = spec_lines(spec_render_codes(cs@));
    lemma_render_lines(cs@);
    assert forall|i: int| 0 <= i < ls.len() implies valid_code_bytes(#[trigger] ls[i])
        || valid_synonym_bytes(ls[i]) by {
        assert(ls[i] == cs@[i]@);
        assert(cs@[i].wf());
    }
    assert forall|v: Seq<u8>| line_code_set(ls).contains(v) implies cs.byte_set().contains(v) by {
        let k = choose|k: int| 0 <= k < ls.len() && (#[trigger] ls[k]).take(5) == v;
        assert(ls[k] == cs@[k]@);
        assert(cs@[k].wf());
        assert(cs@[k]@.take(5) =~= cs@[k]@);
        assert(cs@[k]@ == v);
    }
    assert forall|v: Seq<u8>| cs.byte_set().contains(v) implies line_code_set(ls).contains(v) by {
        let k = choose|k: int| 0 <= k < cs@.len() && (#[trigger] cs@[k])@ == v;
        assert(ls[k] == cs@[k]@);
        assert(cs@[k].wf());
        assert(cs@[k]@.take(5) =~= cs@[k]@);
        assert(ls[k].take(5) == v);
    }
    assert(line_code_set(ls) =~= cs.byte_set());
}

/// A set of codes: ordered and deduplicated.
#[derive(Clone, Debug)]
pub struct CodeSet {
    codes: Vec<ReadCode>,
}

impl View for CodeSet {
    type V = Seq<ReadCode>;

    closed spec fn view(&self) -> Seq<ReadCode> {
        self.codes@
    }
}

impl CodeSet {
    /// The codes are well-formed and strictly sorted (so also deduplicated).
    pub open spec fn wf(&self) -> bool {
        codes_sorted(self@) && codes_wf(self@)
    }

    /// The contents as a set of codes.
    pub open spec fn to_set(&self) -> Set<ReadCode> {
        self@.to_set()
    }

    /// The empty code set.
    pub fn new() -> (r: CodeSet)
        ensures
            r@ =~= Seq::<ReadCode>::empty(),
            r.wf(),
    {
        CodeSet { codes: Vec::new() }
    }

    pub fn len(&self) -> (r: usize)
        ensures
            r == self@.len(),
    {
        self.codes.len()
    }

    pub fn is_empty(&self) -> (r: bool)
        ensures
            r == (self@.len() == 0),
    {
        self.codes.len() == 0
    }

    /// The codes in ascending custom order.
    pub fn iter(&self) -> (r: &Vec<ReadCode>)
        ensures
            r@ == self@,
    {
        &self.codes
    }

    /// Exact membership: descendants of a member are not automatically
    /// members.
    pub fn contains(&self, code: ReadCode) -> (r: bool)
        ensures
            r == self@.contains(code),
    {
        let n = self.codes.len();
        let mut i: usize = 0;
        while i < n
            invariant
                0 <= i <= n,
                n == self@.len(),
                forall|j: int| 0 <= j < i ==> self@[j] != code,
            decreases n - i,
        {
            if self.codes[i] == code {
                return true;
            }
            i += 1;
        }
        false
    }

    /// The number of leading codes that sort strictly below `code`.
    fn lower_bound(&self, code: &ReadCode) -> (r: usize)
        ensures
            0 <= r <= self@.len(),
            forall|j: int| 0 <= j < r ==> spec_code_lt(#[trigger] self@[j]@, code@),
            r < self@.len() ==> !spec_code_lt(self@[r as int]@, code@),
    {
        let n = self.codes.len();
        let mut i: usize = 0;
        while i < n
            invariant
                0 <= i <= n,
                n == self@.len(),
                forall|j: int| 0 <= j < i ==> spec_code_lt(#[trigger] self@[j]@, code@),
            decreases n - i,
        {
            if !self.codes[i].lt(code) {
                return i;
            }
            i += 1;
        }
        i
    }

    /// Insert a code, keeping the set ordered and deduplicated.
    pub fn insert(&mut self, code: ReadCode)
        requires
            old(self).wf(),
            code.wf(),
        ensures
            final(self).wf(),
            final(self).to_set() =~= old(self).to_set().insert(code),
            final(self)@.contains(code),
            old(self)@.contains(code) ==> final(self)@ == old(self)@,
            !old(self)@.contains(code) ==> final(self)@.len() == old(self)@.len() + 1,
    {
        let n = self.codes.len();
        let i = self.lower_bound(&code);
        if i < n {
            proof {
                lemma_code_order_trichotomy(self@[i as int]@, code@);
            }
            if self.codes[i] == code {
                proof {
                    assert(old(self)@.contains(code));
                    assert(final(self).to_set() =~= old(self).to_set().insert(code));
                }
                return;
            }
            proof {
                if self@[i as int]@ =~= code@ {
                    lemma_code_view_eq(self@[i as int], code);
                }
                assert(spec_code_lt(code@, self@[i as int]@));
            }
        }
        proof {
            let w: int = i as int;
            let s_old = self@;
            // `code` is not already present: everything below `i` is smaller,
            // everything at or above `i` is larger
            assert forall|j: int| w <= j < n implies spec_code_lt(code@, #[trigger] s_old[j]@) by {
                if j > w {
                    lemma_code_order_transitive(code@, s_old[w]@, s_old[j]@);
                }
            }
            assert forall|j: int| 0 <= j < n implies s_old[j] != code by {
                lemma_code_order_trichotomy(s_old[j]@, code@);
                if s_old[j] == code {
                    assert(s_old[j]@ == code@);
                }
            }
            assert(!old(self)@.contains(code));
        }
        self.codes.insert(i, code);
        proof {
            let s_new = self@;
            let s_old = old(self)@;
            let w: int = i as int;
            assert(s_new.len() == s_old.len() + 1);
            assert forall|p: int| 0 <= p < s_new.len() implies #[trigger] s_new[p] == (if p < w {
                s_old[p]
            } else if p == w {
                code
            } else {
                s_old[p - 1]
            }) by {
                broadcast use vstd::seq_lib::group_seq_properties;
            }
            assert forall|p: int, q: int| 0 <= p < q < s_new.len() implies
                spec_code_lt(#[trigger] s_new[p]@, #[trigger] s_new[q]@) by {
                if p < w && q > w {
                    lemma_code_order_transitive(s_old[p]@, code@, s_old[q - 1]@);
                }
            }
            assert(codes_wf(s_new));
            assert(final(self).to_set() =~= old(self).to_set().insert(code)) by {
                assert forall|c: ReadCode| s_new.to_set().contains(c) implies
                    s_old.to_set().insert(code).contains(c) by {
                    let k = choose|k: int| 0 <= k < s_new.len() && s_new[k] == c;
                    if k != w {
                        let k0 = if k < w { k } else { k - 1 };
                        assert(s_old[k0] == c);
                    }
                }
                assert forall|c: ReadCode| s_old.to_set().insert(code).contains(c) implies
                    s_new.to_set().contains(c) by {
                    if c == code {
                        assert(s_new[w] == c);
                    } else {
                        let k0 = choose|k0: int| 0 <= k0 < s_old.len() && s_old[k0] == c;
                        let k = if k0 < w { k0 } else { k0 + 1 };
                        assert(s_new[k] == c);
                    }
                }
            }
            assert(s_new[w] == code);
        }
    }

    /// Append a code known to sort above everything present.
    pub fn push_max(&mut self, code: ReadCode)
        requires
            old(self).wf(),
            code.wf(),
            forall|j: int| 0 <= j < old(self)@.len() ==> spec_code_lt(
                (#[trigger] old(self)@[j])@, code@),
        ensures
            final(self).wf(),
            final(self)@ == old(self)@.push(code),
    {
        self.codes.push(code);
        proof {
            let s_new = self@;
            let s_old = old(self)@;
            assert forall|p: int, q: int| 0 <= p < q < s_new.len() implies
                spec_code_lt(#[trigger] s_new[p]@, #[trigger] s_new[q]@) by {
                if q == s_new.len() - 1 {
                    assert(s_new[p] == s_old[p]);
                    assert(s_new[q] == code);
                }
            }
            assert(codes_wf(s_new));
        }
    }

    /// Remove a code from this code set (a no-op when absent).
    pub fn remove(&mut self, code: ReadCode)
        requires
            old(self).wf(),
        ensures
            final(self).wf(),
            final(self).to_set() =~= old(self).to_set().remove(code),
            !final(self)@.contains(code),
    {
        let n = self.codes.len();
        let mut i: usize = 0;
        while i < n
            invariant
                0 <= i <= n,
                n == self@.len(),
                self == old(self),
                old(self).wf(),
                forall|j: int| 0 <= j < i ==> self@[j] != code,
            decreases n - i,
        {
            if self.codes[i] == code {
                self.codes.remove(i);
                proof {
                    let s_new = self@;
                    let s_old = old(self)@;
                    let w: int = i as int;
                    assert(s_new.len() == s_old.len() - 1);
                    assert forall|p: int| 0 <= p < s_new.len() implies #[trigger] s_new[p] == (
                        if p < w {
                        s_old[p]
                    } else {
                        s_old[p + 1]
                    }) by {
                        broadcast use vstd::seq_lib::group_seq_properties;
                    }
                    assert forall|p: int, q: int| 0 <= p < q < s_new.len() implies
                        spec_code_lt(#[trigger] s_new[p]@, #[trigger] s_new[q]@) by {
                        let p0: int = if p < w { p } else { p + 1 };
                        let q0: int = if q < w { q } else { q + 1 };
                        assert(s_new[p] == s_old[p0]);
                        assert(s_new[q] == s_old[q0]);
                        assert(spec_code_lt(s_old[p0]@, s_old[q0]@));
                    }
                    assert forall|j: int| 0 <= j < s_new.len() implies (#[trigger] s_new[j]).wf()
                        by {
                        let j0: int = if j < w { j } else { j + 1 };
                        assert(s_new[j] == s_old[j0]);
                        assert(s_old[j0].wf());
                    }
                    assert(codes_wf(s_new));
                    // the removed position held the only copy of `code`
                    assert forall|j: int| 0 <= j < s_new.len() implies s_new[j] != code by {
                        if j >= w {
                            assert(s_old[w].wf());
                            assert(s_old[j + 1].wf());
                            lemma_code_order_trichotomy(s_old[w]@, s_old[j + 1]@);
                            if s_old[j + 1] == code {
                                assert(s_old[j + 1]@ == code@);
                            }
                        }
                    }
                    assert(final(self).to_set() =~= old(self).to_set().remove(code)) by {
                        assert forall|c: ReadCode| s_new.to_set().contains(c) implies
                            s_old.to_set().remove(code).contains(c) by {
                            let k = choose|k: int| 0 <= k < s_new.len() && s_new[k] == c;
                            let k0 = if k < w { k } else { k + 1 };
                            assert(s_old[k0] == c);
                        }
                        assert forall|c: ReadCode| s_old.to_set().remove(code).contains(c) implies
                            s_new.to_set().contains(c) by {
                            let k0 = choose|k0: int| 0 <= k0 < s_old.len() && s_old[k0] == c;
                            if k0 < w {
                                assert(s_new[k0] == c);
                            } else {
                                assert(k0 != w);
                                assert(s_new[k0 - 1] == c);
                            }
                        }
                    }
                }
                return;
            }
            i += 1;
        }
        proof {
            assert(!old(self)@.contains(code));
            assert(final(self).to_set() =~= old(self).to_set().remove(code));
        }
    }

    /// Build a code set from codes in any order; duplicates are removed.
    pub fn from_vec(codes: &Vec<ReadCode>) -> (r: CodeSet)
        requires
            codes_wf(codes@),
        ensures
            r.wf(),
            r.to_set() =~= codes@.to_set(),
    {
        broadcast use vstd::seq_lib::group_seq_properties;

        let mut out = CodeSet::new();
        let mut i: usize = 0;
        while i < codes.len()
            invariant
                0 <= i <= codes@.len(),
                codes_wf(codes@),
                out.wf(),
                out.to_set() =~= codes@.take(i as int).to_set(),
            decreases codes@.len() - i,
        {
            proof {
                assert(codes@.take(i + 1).drop_last() =~= codes@.take(i as int));
                assert(codes@.take(i + 1).last() == codes@[i as int]);
            }
            out.insert(codes[i]);
            proof {
                assert(codes@.take(i + 1) =~= codes@.take(i as int).push(codes@[i as int]));
                assert(codes@.take(i as int).push(codes@[i as int]).to_set() =~= codes@.take(
                    i as int).to_set().insert(codes@[i as int]));
                assert(out.to_set() =~= codes@.take(i + 1).to_set());
            }
            i += 1;
        }
        proof {
            assert(codes@.take(codes@.len() as int) =~= codes@);
        }
        out
    }

    /// The contents as a set of 5-byte code values.
    pub open spec fn byte_set(&self) -> Set<Seq<u8>> {
        Set::new(|v: Seq<u8>| exists|k: int| 0 <= k < self@.len() && (#[trigger] self@[k])@ == v)
    }

    /// Render the set in its text form: one code per line.
    pub fn save_bytes(&self) -> (r: Vec<u8>)
        ensures
            r@ =~= spec_render_codes(self@),
    {
        let mut out: Vec<u8> = Vec::new();
        let n = self.codes.len();
        let mut i: usize = 0;
        while i < n
            invariant
                0 <= i <= n,
                n == self@.len(),
                out@ =~= spec_render_codes(self@.take(i as int)),
            decreases n - i,
        {
            proof {
                lemma_render_push(self@.take(i as int), self@[i as int]);
                assert(self@.take(i + 1) =~= self@.take(i as int).push(self@[i as int]));
            }
            let code = self.codes[i];
            out.push(code.bytes_at(0));
            out.push(code.bytes_at(1));
            out.push(code.bytes_at(2));
            out.push(code.bytes_at(3));
            out.push(code.bytes_at(4));
            out.push(10);
            proof {
                assert(out@ =~= spec_render_codes(self@.take(i + 1)));
            }
            i += 1;
        }
        proof {
            assert(self@.take(n as int) =~= self@);
        }
        out
    }

    /// Parse the text form: one code per line, each either the 5-character
    /// form or the 7-character synonym form. Any malformed line rejects the
    /// whole list.
    pub fn load_bytes(b: &Vec<u8>) -> (r: Result<CodeSet, ParseError>)
        ensures
            (r is Ok) == code_lines_valid(spec_lines(b@)),
            r matches Ok(cs) ==> cs.wf() && cs.byte_set() =~= line_code_set(spec_lines(b@)),
    {
        let lines = split_lines(b);
        let ghost ls = spec_lines(b@);
        let mut cs = CodeSet::new();
        let mut i: usize = 0;
        while i < lines.len()
            invariant
                0 <= i <= lines@.len(),
                ls == spec_lines(b@),
                lines@.map_values(|l: Vec<u8>| l@) =~= ls,
                cs.wf(),
                forall|j: int| 0 <= j < i ==> valid_code_bytes(#[trigger] ls[j])
                    || valid_synonym_bytes(ls[j]),
                cs.byte_set() =~= line_code_set(ls.take(i as int)),
            decreases lines@.len() - i,
        {
            let ghost old_cs = cs;
            match ReadCode::from_byte_vec(&lines[i]) {
                Ok(code) => {
                    cs.insert(code);
                    proof {
                        assert(ls[i as int] == lines@.map_values(|l: Vec<u8>| l@)[i as int]);
                        assert(code@ =~= ls[i as int].take(5));
                        assert(ls.take(i + 1) =~= ls.take(i as int).push(ls[i as int]));
                        lemma_line_code_set_push(ls.take(i as int), ls[i as int]);
                        assert forall|v: Seq<u8>| cs.byte_set().contains(v) implies
                            line_code_set(ls.take(i + 1)).contains(v) by {
                            let k = choose|k: int|
                                0 <= k < cs@.len() && (#[trigger] cs@[k])@ == v;
                            assert(cs@.contains(cs@[k]));
                            assert(cs.to_set().contains(cs@[k]));
                            if cs@[k] == code {
                                assert(v == code@);
                            } else {
                                assert(old_cs.to_set().contains(cs@[k]));
                                assert(old_cs@.contains(cs@[k]));
                                let m = choose|m: int|
                                    0 <= m < old_cs@.len() && old_cs@[m] == cs@[k];
                                assert((old_cs@[m])@ == v);
                                assert(old_cs.byte_set().contains(v));
                            }
                        }
                        assert forall|v: Seq<u8>| line_code_set(ls.take(i + 1)).contains(v)
                            implies cs.byte_set().contains(v) by {
                            if v == code@ {
                                assert(cs@.contains(code));
                                let m = choose|m: int| 0 <= m < cs@.len() && cs@[m] == code;
                                assert((cs@[m])@ == v);
                            } else {
                                assert(old_cs.byte_set().contains(v));
                                let k = choose|k: int|
                                    0 <= k < old_cs@.len() && (#[trigger] old_cs@[k])@ == v;
                                assert(old_cs@.contains(old_cs@[k]));
                                assert(old_cs.to_set().contains(old_cs@[k]));
                                assert(cs.to_set().contains(old_cs@[k]));
                                assert(cs@.contains(old_cs@[k]));
                                let m = choose|m: int|
                                    0 <= m < cs@.len() && cs@[m] == old_cs@[k];
                                assert((cs@[m])@ == v);
                            }
                        }
                        assert(cs.byte_set() =~= line_code_set(ls.take(i + 1)));
                    }
                },
                Err(e) => {
                    proof {
                        assert(ls[i as int] == lines@.map_values(|l: Vec<u8>| l@)[i as int]);
                        assert(ls[i as int] == lines@[i as int]@);
                        assert(!valid_code_bytes(ls[i as int]));
                        assert(!valid_synonym_bytes(ls[i as int]));
                        assert(!code_lines_valid(ls));
                    }
                    return Err(e);
                },
            }
            i += 1;
        }
        proof {
            assert(ls.take(ls.len() as int) =~= ls);
            assert(code_lines_valid(ls));
        }
        Ok(cs)
    }

    /// Set difference: the codes in `self` that are not in `rhs`.
    pub fn sub(&self, rhs: &CodeSet) -> (r: CodeSet)
        requires
            self.wf(),
        ensures
            r.wf(),
            r.to_set() =~= self.to_set().difference(rhs.to_set()),
    {
        broadcast use vstd::seq_lib::group_seq_properties;

        let mut out = CodeSet::new();
        let n = self.codes.len();
        let mut i: usize = 0;
        while i < n
            invariant
                0 <= i <= n,
                n == self@.len(),
                self.wf(),
                out.wf(),
                out.to_set() =~= self@.take(i as int).to_set().difference(rhs.to_set()),
            decreases n - i,
        {
            proof {
                assert(self@.take(i + 1).drop_last() =~= self@.take(i as int));
                assert(self@.take(i + 1).last() == self@[i as int]);
                assert(self@.take(i + 1) =~= self@.take(i as int).push(self@[i as int]));
            }
            let code = self.codes[i];
            if !rhs.contains(code) {
                out.insert(code);
            }
            proof {
                assert(self@.take(i as int).push(self@[i as int]).to_set() =~= self@.take(
                    i as int).to_set().insert(self@[i as int]));
                assert(out.to_set() =~= self@.take(i + 1).to_set().difference(rhs.to_set()));
            }
            i += 1;
        }
        proof {
            assert(self@.take(self@.len() as int) =~= self@);
        }
        out
    }
}

/// The byte sequences of a list of codes.
pub open spec fn code_byte_seqs(s: Seq<ReadCode>) -> Seq<Seq<u8>> {
    Seq::new(s.len(), |i: int| s[i]@)
}

/// `needle` occurs contiguously somewhere inside `hay`.
pub open spec fn is_substring_of(needle: Seq<u8>, hay: Seq<u8>) -> bool {
    exists|j: int| 0 <= j && j + needle.len() <= hay.len() && #[trigger] hay.subrange(
        j, j + needle.len() as int) == needle
}

/// The aho-corasick automaton type, declared so that a matcher can hold
/// one; the value is opaque here, reached only through the wrappers below.
#[verifier::external_type_specification]
#[verifier::external_body]
pub struct ExAhoCorasick(aho_corasick::AhoCorasick);

/// The patterns the automaton was built from.
pub uninterp spec fn ac_patterns(m: aho_corasick::AhoCorasick) -> Seq<Seq<u8>>;

/// Relies on `aho_corasick::AhoCorasick::new`: builds an automaton holding
/// exactly the given codes' byte patterns. Construction fails only on
/// pathological inputs (far beyond any code list), so the result is an
/// `Option` and the fallback path scans the set directly.
#[verifier::external_body]
fn ac_build(codes: &Vec<ReadCode>) -> (r: Option<aho_corasick::AhoCorasick>)
    ensures
        r matches Some(m) ==> ac_patterns(m) == code_byte_seqs(codes@),
{
    aho_corasick::AhoCorasick::new(codes.iter().map(|c| c.to_bytes())).ok()
}

/// Relies on `aho_corasick::AhoCorasick::is_match`: true exactly when some
/// pattern of the automaton occurs as a substring of the haystack.
#[verifier::external_body]
fn ac_is_match(m: &aho_corasick::AhoCorasick, hay: &Vec<u8>) -> (r: bool)
    ensures
        r == (exists|i: int| 0 <= i < ac_patterns(*m).len() && is_substring_of(
            #[trigger] ac_patterns(*m)[i], hay@)),
{
    m.is_match(hay.as_slice())
}

/// A 5-byte pattern is a substring of a 5-byte haystack only by being equal
/// to it.
proof fn lemma_substring_same_len(needle: Seq<u8>, hay: Seq<u8>)
    requires
        needle.len() == 5,
        hay.len() == 5,
    ensures
        is_substring_of(needle, hay) <==> needle =~= hay,
{
    if is_substring_of(needle, hay) {
        let j = choose|j: int| 0 <= j && j + needle.len() <= hay.len() && #[trigger] hay.subrange(
            j, j + needle.len() as int) == needle;
        assert(j == 0);
        assert(hay.subrange(0, 5) =~= hay);
    }
    if needle =~= hay {
        assert(hay.subrange(0, 5) =~= needle);
        assert(0 <= 0 && 0 + needle.len() <= hay.len() && hay.subrange(
            0, 0 + needle.len() as int) == needle);
    }
}

/// A `CodeSet` paired with a finite-automaton matcher over the code bytes,
/// answering exact membership in better-than-linear time. Membership
/// behaves identically to the set's own: descendants of a member are not
/// automatically members.
#[derive(Debug)]
pub struct CodeSetMatcher {
    code_set: CodeSet,
    matcher: Option<aho_corasick::AhoCorasick>,
}

impl CodeSetMatcher {
    /// The code set behind the matcher.
    pub closed spec fn spec_code_set(&self) -> CodeSet {
        self.code_set
    }

    /// The automaton, when present, holds exactly the set's code bytes.
    pub closed spec fn wf(&self) -> bool {
        &&& self.code_set.wf()
        &&& self.matcher matches Some(m) ==> ac_patterns(m) == code_byte_seqs(self.code_set@)
    }

    /// Exact membership, equivalent to `code_set.contains(code)`.
    pub fn contains(&self, code: ReadCode) -> (r: bool)
        requires
            self.wf(),
            code.wf(),
        ensures
            r == self.spec_code_set()@.contains(code),
    {
        match &self.matcher {
            Some(m) => {
                let hay = code.to_bytes();
                let r = ac_is_match(m, &hay);
                proof {
                    let pats = ac_patterns(*m);
                    let codes = self.code_set@;
                    if r {
                        let i = choose|i: int| 0 <= i < pats.len() && is_substring_of(
                            #[trigger] pats[i], hay@);
                        assert(pats[i] == codes[i]@);
                        assert(codes[i].wf());
                        lemma_substring_same_len(pats[i], hay@);
                        assert(codes[i]@ =~= code@);
                        lemma_code_view_eq(codes[i], code);
                        assert(codes.contains(code));
                    } else {
                        if codes.contains(code) {
                            let i = choose|i: int| 0 <= i < codes.len() && codes[i] == code;
                            assert(pats[i] == codes[i]@);
                            lemma_substring_same_len(pats[i], hay@);
                            assert(is_substring_of(pats[i], hay@));
                        }
                    }
                }
                r
            },
            None => self.code_set.contains(code),
        }
    }

    /// Give back the code set.
    pub fn into_inner(self) -> (r: CodeSet)
        ensures
            r == self.spec_code_set(),
    {
        self.code_set
    }
}

impl CodeSet {
    /// A version of `CodeSet` that can match codes quickly.
    pub fn into_matcher(self) -> (r: CodeSetMatcher)
        requires
            self.wf(),
        ensures
            r.wf(),
            r.spec_code_set() == self,
    {
        let matcher = ac_build(&self.codes);
        CodeSetMatcher { code_set: self, matcher }
    }
}

/// Split a byte text into its lines. A final segment appears only when it is
/// not empty.
fn split_lines(b: &Vec<u8>) -> (r: Vec<Vec<u8>>)
    ensures
        r@.map_values(|l: Vec<u8>| l@) =~= spec_lines(b@),
{
    let n = b.len();
    let mut out: Vec<Vec<u8>> = Vec::new();
    let mut cur: Vec<u8> = Vec::new();
    let ghost mut seg_start: int = 0int;
    let mut pos: usize = 0;
    proof {
        assert(b@.subrange(0, n as int) =~= b@);
        assert(out@.map_values(|l: Vec<u8>| l@) =~= Seq::<Seq<u8>>::empty());
    }
    while pos < n
        invariant
            0 <= seg_start <= pos <= n,
            n == b@.len(),
            cur@ =~= b@.subrange(seg_start, pos as int),
            forall|k: int| seg_start <= k < pos ==> b@[k] != 10,
            spec_lines(b@) =~= out@.map_values(|l: Vec<u8>| l@) + spec_lines(
                b@.subrange(seg_start, n as int)),
        decreases n - pos,
    {
        let byte = b[pos];
        if byte == 10 {
            proof {
                let suffix = b@.subrange(seg_start, n as int);
                assert(suffix.len() > 0);
                let m = pos - seg_start;
                assert forall|k: int| 0 <= k < m implies suffix[k] != 10 by {
                    assert(suffix[k] == b@[seg_start + k]);
                }
                assert(suffix[m] == b@[pos as int]);
                lemma_find_nl_is(suffix, 0, m as nat);
                assert(suffix.subrange(0, m) =~= cur@);
                assert(suffix.subrange(m + 1, suffix.len() as int) =~= b@.subrange(
                    pos + 1, n as int));
                assert(spec_lines(suffix) =~= seq![cur@] + spec_lines(
                    b@.subrange(pos + 1, n as int)));
            }
            let ghost old_out = out@;
            let ghost cur_view = cur@;
            out.push(cur);
            cur = Vec::new();
            proof {
                assert(out@.map_values(|l: Vec<u8>| l@) =~= old_out.map_values(
                    |l: Vec<u8>| l@).push(cur_view));
                seg_start = pos + 1;
                assert(cur@ =~= b@.subrange(seg_start, pos + 1));
                assert(spec_lines(b@) =~= out@.map_values(|l: Vec<u8>| l@) + spec_lines(
                    b@.subrange(seg_start, n as int)));
            }
        } else {
            cur.push(byte);
            proof {
                assert(cur@ =~= b@.subrange(seg_start, pos + 1));
            }
        }
        pos += 1;
    }
    proof {
        let suffix = b@.subrange(seg_start, n as int);
        assert(suffix =~= cur@);
    }
    if cur.len() > 0 {
        proof {
            let suffix = b@.subrange(seg_start, n as int);
            lemma_find_nl_is(suffix, 0, suffix.len() as nat);
            assert(spec_lines(suffix) =~= seq![cur@]);
        }
        let ghost old_out = out@;
        let ghost cur_view = cur@;
        out.push(cur);
        proof {
            assert(out@.map_values(|l: Vec<u8>| l@) =~= old_out.map_values(
                |l: Vec<u8>| l@).push(cur_view));
        }
    }
    out
}

} // verus!
