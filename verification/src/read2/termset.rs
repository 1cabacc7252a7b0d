//! Versioned, attributable include/exclude term sets.
//!
//! A term set pairs two lists of authored term strings (includes and
//! excludes) with their compiled filter sets. The compiled filters are kept
//! in sync with the term lists: after every edit they equal the compilation
//! of the full updated lists, which is what the well-formedness invariant
//! states. A description matches the set when it matches at least one
//! include filter and no exclude filter.

use vstd::prelude::*;

use crate::read2::filter::{
    compiled_from, spec_compile, spec_fs_matches, FilterSet,
};
use crate::read2::ParseError;

verus! {

/// Who created a term set.
#[derive(Debug, Clone)]
pub struct User {
    pub name: String,
    pub email: String,
}

/// The code terminology a term set addresses.
#[derive(Debug, Clone, Copy, PartialEq, Eq, Structural)]
pub enum Terminology {
    Readv2,
}

/// Relies on `chrono::Utc::now`: the current time as Unix seconds. Nothing
/// is promised of the clock's value.
#[verifier::external_body]
fn now_timestamp() -> i64 {
    chrono::Utc::now().timestamp()
}

/// The term list with every copy of one term removed.
pub open spec fn spec_remove_term(terms: Seq<Seq<char>>, t: Seq<char>) -> Seq<Seq<char>>
    decreases terms.len(),
{
    if terms.len() == 0 {
        Seq::empty()
    } else {
        spec_remove_term(terms.drop_last(), t) + (if terms.last() == t {
            Seq::<Seq<char>>::empty()
        } else {
            seq![terms.last()]
        })
    }
}

/// Law: adding a term and then removing it restores the original term list
/// exactly, provided the term was not already present.
pub proof fn lemma_add_remove_term(terms: Seq<Seq<char>>, t: Seq<char>)
    requires
        !terms.contains(t),
    ensures
        spec_remove_term(terms.push(t), t) =~= terms,
    decreases terms.len(),
{
    lemma_remove_absent(terms, t);
    assert(terms.push(t).drop_last() =~= terms);
    assert(terms.push(t).last() == t);
}

/// Removing an absent term changes nothing.
pub proof fn lemma_remove_absent(terms: Seq<Seq<char>>, t: Seq<char>)
    requires
        !terms.contains(t),
    ensures
        spec_remove_term(terms, t) =~= terms,
    decreases terms.len(),
{
    if terms.len() > 0 {
        let pre = terms.drop_last();
        assert(!pre.contains(t)) by {
            if pre.contains(t) {
                let k = choose|k: int| 0 <= k < pre.len() && pre[k] == t;
                assert(terms[k] == t);
            }
        }
        lemma_remove_absent(pre, t);
        assert(terms.last() != t) by {
            assert(terms[terms.len() - 1] == terms.last());
        }
        assert(spec_remove_term(terms, t) =~= pre + seq![terms.last()]);
        assert(pre + seq![terms.last()] =~= terms);
    }
}

/// A list of inclusion and exclusion terms, interpreted as whole-word match
/// filters, with authorship and versioning for audit.
#[derive(Debug, Clone)]
pub struct TermSet {
    include_terms: Vec<String>,
    exclude_terms: Vec<String>,
    includes: FilterSet,
    excludes: FilterSet,
    terminology: Terminology,
    name: Option<String>,
    description: Option<String>,
    version: String,
    created_by: Option<User>,
    created_on: i64,
    last_updated: i64,
}

impl TermSet {
    /// The include term strings, as character sequences.
    pub closed spec fn spec_include_terms(&self) -> Seq<Seq<char>> {
        self.include_terms.deep_view()
    }

    /// The exclude term strings, as character sequences.
    pub closed spec fn spec_exclude_terms(&self) -> Seq<Seq<char>> {
        self.exclude_terms.deep_view()
    }

    /// The compiled include filters.
    pub closed spec fn spec_includes(&self) -> Seq<Seq<Seq<char>>> {
        self.includes@
    }

    /// The compiled exclude filters.
    pub closed spec fn spec_excludes(&self) -> Seq<Seq<Seq<char>>> {
        self.excludes@
    }

    /// The compiled filters are exactly the compilation of the term lists.
    pub open spec fn wf(&self) -> bool {
        compiled_from(self.spec_includes(), self.spec_include_terms()) && compiled_from(
            self.spec_excludes(), self.spec_exclude_terms())
    }

    /// A description matches the set when it matches at least one include
    /// filter and no exclude filter.
    pub open spec fn spec_is_match(&self, description: Seq<char>) -> bool {
        spec_fs_matches(self.spec_includes(), description) && !spec_fs_matches(
            self.spec_excludes(), description)
    }

    /// A code with several descriptions matches when any description matches
    /// an include filter and none matches an exclude filter.
    pub open spec fn spec_is_match_multi(&self, descriptions: Seq<Seq<char>>) -> bool {
        (exists|i: int| 0 <= i < descriptions.len() && spec_fs_matches(
            self.spec_includes(), #[trigger] descriptions[i])) && !(exists|i: int|
            0 <= i < descriptions.len() && spec_fs_matches(
            self.spec_excludes(), #[trigger] descriptions[i]))
    }

    /// A description matches an include or an exclude filter: the term-set
    /// author has considered it.
    pub open spec fn spec_is_match_inc_or_ex(&self, description: Seq<char>) -> bool {
        spec_fs_matches(self.spec_includes(), description) || spec_fs_matches(
            self.spec_excludes(), description)
    }

    /// Create a new term set from include and exclude term strings,
    /// compiling both filter sets eagerly. The first term string that fails
    /// to parse rejects the whole set with its error.
    pub fn new(
        name: Option<String>,
        description: Option<String>,
        include_terms: Vec<String>,
        exclude_terms: Vec<String>,
        created_by: Option<User>,
    ) -> (r: Result<TermSet, ParseError>)
        ensures
            r matches Ok(ts) ==> ts.wf() && ts.spec_include_terms() == include_terms.deep_view()
                && ts.spec_exclude_terms() == exclude_terms.deep_view(),
            (r is Ok) == ((forall|i: int| 0 <= i < include_terms@.len() ==> spec_compile(
                #[trigger] include_terms.deep_view()[i]) is Ok) && (forall|i: int|
                0 <= i < exclude_terms@.len() ==> spec_compile(
                #[trigger] exclude_terms.deep_view()[i]) is Ok)),
    {
        let includes = match FilterSet::new(&include_terms) {
            Ok(fs) => fs,
            Err(e) => {
                return Err(e);
            },
        };
        let excludes = match FilterSet::new(&exclude_terms) {
            Ok(fs) => fs,
            Err(e) => {
                return Err(e);
            },
        };
        let now = now_timestamp();
        Ok(TermSet {
            include_terms,
            exclude_terms,
            includes,
            excludes,
            terminology: Terminology::Readv2,
            name,
            description,
            version: "v20160401".to_owned(),
            created_by,
            created_on: now,
            last_updated: now,
        })
    }

    /// Rebuild a term set from its persisted fields, recompiling both filter
    /// sets from the term strings; persisted filter state is never trusted.
    pub fn from_parts(
        include_terms: Vec<String>,
        exclude_terms: Vec<String>,
        terminology: Terminology,
        name: Option<String>,
        description: Option<String>,
        version: String,
        created_by: Option<User>,
        created_on: i64,
        last_updated: i64,
    ) -> (r: Result<TermSet, ParseError>)
        ensures
            r matches Ok(ts) ==> ts.wf() && ts.spec_include_terms() == include_terms.deep_view()
                && ts.spec_exclude_terms() == exclude_terms.deep_view(),
            (r is Ok) == ((forall|i: int| 0 <= i < include_terms@.len() ==> spec_compile(
                #[trigger] include_terms.deep_view()[i]) is Ok) && (forall|i: int|
                0 <= i < exclude_terms@.len() ==> spec_compile(
                #[trigger] exclude_terms.deep_view()[i]) is Ok)),
    {
        let includes = match FilterSet::new(&include_terms) {
            Ok(fs) => fs,
            Err(e) => {
                return Err(e);
            },
        };
        let excludes = match FilterSet::new(&exclude_terms) {
            Ok(fs) => fs,
            Err(e) => {
                return Err(e);
            },
        };
        Ok(TermSet {
            include_terms,
            exclude_terms,
            includes,
            excludes,
            terminology,
            name,
            description,
            version,
            created_by,
            created_on,
            last_updated,
        })
    }

    /// Add an include term, recompiling the include filters. A term that
    /// fails to parse is rejected and the set is left unchanged.
    pub fn add_include(&mut self, term: String) -> (r: Result<(), ParseError>)
        requires
            old(self).wf(),
        ensures
            final(self).wf(),
            (r is Ok) == (spec_compile(term@) is Ok),
            r is Ok ==> final(self).spec_include_terms() == old(self).spec_include_terms().push(
                term@),
            r matches Err(e) ==> spec_compile(term@) == Err::<Seq<Seq<char>>, ParseError>(e)
                && *final(self) == *old(self),
            final(self).spec_exclude_terms() == old(self).spec_exclude_terms(),
            r is Err ==> final(self).spec_include_terms() == old(self).spec_include_terms(),
    {
        let tf = match crate::read2::filter::TermFilter::parse(term.as_str()) {
            Ok(tf) => tf,
            Err(e) => {
                return Err(e);
            },
        };
        let f = tf.codegen();
        self.include_terms.push(term);
        self.includes.push_filter(f);
        proof {
            assert(self.spec_include_terms() =~= old(self).spec_include_terms().push(term@));
            assert(self.spec_includes() =~= old(self).spec_includes().push(spec_codegen_of(
                term@)));
            assert(compiled_from(self.spec_includes(), self.spec_include_terms())) by {
                let fs = self.spec_includes();
                let ts = self.spec_include_terms();
                assert forall|i: int| 0 <= i < ts.len() implies spec_compile(#[trigger] ts[i])
                    == Ok::<Seq<Seq<char>>, ParseError>(fs[i]) by {
                    if i < ts.len() - 1 {
                        assert(ts[i] == old(self).spec_include_terms()[i]);
                        assert(fs[i] == old(self).spec_includes()[i]);
                    }
                }
            }
        }
        Ok(())
    }

    /// Remove every copy of an include term, recompiling the include
    /// filters; removing an absent term is a no-op, not an error.
    pub fn remove_include(&mut self, term: String)
        requires
            old(self).wf(),
        ensures
            final(self).wf(),
            final(self).spec_include_terms() == spec_remove_term(
                old(self).spec_include_terms(), term@),
            final(self).spec_exclude_terms() == old(self).spec_exclude_terms(),
    {
        let kept = remove_term_strings(&self.include_terms, &term);
        let includes = match FilterSet::new(&kept) {
            Ok(fs) => fs,
            Err(e) => {
                proof {
                    lemma_remove_compiles(old(self).spec_include_terms(), term@);
                    assert(false);
                }
                FilterSet::empty()
            },
        };
        self.include_terms = kept;
        self.includes = includes;
    }

    /// Add an exclude term, recompiling the exclude filters. A term that
    /// fails to parse is rejected and the set is left unchanged.
    pub fn add_exclude(&mut self, term: String) -> (r: Result<(), ParseError>)
        requires
            old(self).wf(),
        ensures
            final(self).wf(),
            (r is Ok) == (spec_compile(term@) is Ok),
            r is Ok ==> final(self).spec_exclude_terms() == old(self).spec_exclude_terms().push(
                term@),
            r matches Err(e) ==> spec_compile(term@) == Err::<Seq<Seq<char>>, ParseError>(e)
                && *final(self) == *old(self),
            final(self).spec_include_terms() == old(self).spec_include_terms(),
            r is Err ==> final(self).spec_exclude_terms() == old(self).spec_exclude_terms(),
    {
        let tf = match crate::read2::filter::TermFilter::parse(term.as_str()) {
            Ok(tf) => tf,
            Err(e) => {
                return Err(e);
            },
        };
        let f = tf.codegen();
        self.exclude_terms.push(term);
        self.excludes.push_filter(f);
        proof {
            assert(self.spec_exclude_terms() =~= old(self).spec_exclude_terms().push(term@));
            assert(self.spec_excludes() =~= old(self).spec_excludes().push(spec_codegen_of(
                term@)));
            assert(compiled_from(self.spec_excludes(), self.spec_exclude_terms())) by {
                let fs = self.spec_excludes();
                let ts = self.spec_exclude_terms();
                assert forall|i: int| 0 <= i < ts.len() implies spec_compile(#[trigger] ts[i])
                    == Ok::<Seq<Seq<char>>, ParseError>(fs[i]) by {
                    if i < ts.len() - 1 {
                        assert(ts[i] == old(self).spec_exclude_terms()[i]);
                        assert(fs[i] == old(self).spec_excludes()[i]);
                    }
                }
            }
        }
        Ok(())
    }

    /// Remove every copy of an exclude term, recompiling the exclude
    /// filters; removing an absent term is a no-op, not an error.
    pub fn remove_exclude(&mut self, term: String) -> (r: Result<(), ParseError>)
        requires
            old(self).wf(),
        ensures
            final(self).wf(),
            r is Ok,
            final(self).spec_exclude_terms() == spec_remove_term(
                old(self).spec_exclude_terms(), term@),
            final(self).spec_include_terms() == old(self).spec_include_terms(),
    {
        let kept = remove_term_strings(&self.exclude_terms, &term);
        let excludes = match FilterSet::new(&kept) {
            Ok(fs) => fs,
            Err(e) => {
                proof {
                    lemma_remove_compiles(old(self).spec_exclude_terms(), term@);
                    assert(false);
                }
                FilterSet::empty()
            },
        };
        self.exclude_terms = kept;
        self.excludes = excludes;
        Ok(())
    }

    /// The compiled include filters.
    pub fn include_filter(&self) -> (r: &FilterSet)
        ensures
            r@ == self.spec_includes(),
    {
        &self.includes
    }

    /// The compiled exclude filters.
    pub fn exclude_filter(&self) -> (r: &FilterSet)
        ensures
            r@ == self.spec_excludes(),
    {
        &self.excludes
    }

    /// Whether a single description matches this term set.
    pub fn is_match(&self, description: &str) -> (r: bool)
        ensures
            r == self.spec_is_match(description@),
    {
        self.includes.is_match(description) && !self.excludes.is_match(description)
    }

    /// Whether a code with these known descriptions matches: any description
    /// matches an include, and none matches an exclude.
    pub fn is_match_multi(&self, descriptions: &Vec<String>) -> (r: bool)
        ensures
            r == self.spec_is_match_multi(descriptions.deep_view()),
    {
        let n = descriptions.len();
        let mut incl = false;
        let mut excl = false;
        let mut i: usize = 0;
        while i < n
            invariant
                0 <= i <= n,
                n == descriptions@.len(),
                incl == exists|j: int| 0 <= j < i && spec_fs_matches(
                    self.spec_includes(), #[trigger] descriptions.deep_view()[j]),
                excl == exists|j: int| 0 <= j < i && spec_fs_matches(
                    self.spec_excludes(), #[trigger] descriptions.deep_view()[j]),
            decreases n - i,
        {
            proof {
                assert(descriptions.deep_view()[i as int] == descriptions@[i as int]@);
            }
            if self.includes.is_match(descriptions[i].as_str()) {
                incl = true;
                proof {
                    assert(spec_fs_matches(self.spec_includes(), descriptions.deep_view()[
                        i as int]));
                }
            }
            if self.excludes.is_match(descriptions[i].as_str()) {
                excl = true;
                proof {
                    assert(spec_fs_matches(self.spec_excludes(), descriptions.deep_view()[
                        i as int]));
                }
            }
            i += 1;
        }
        incl && !excl
    }

    /// Whether the description matches any include or exclude term: whether
    /// the author has accounted for it.
    pub fn is_match_inc_or_ex(&self, description: &str) -> (r: bool)
        ensures
            r == self.spec_is_match_inc_or_ex(description@),
    {
        self.includes.is_match(description) || self.excludes.is_match(description)
    }

    /// The include term strings, in order.
    pub fn include_terms(&self) -> (r: &Vec<String>)
        ensures
            r.deep_view() == self.spec_include_terms(),
    {
        &self.include_terms
    }

    /// The exclude term strings, in order.
    pub fn exclude_terms(&self) -> (r: &Vec<String>)
        ensures
            r.deep_view() == self.spec_exclude_terms(),
    {
        &self.exclude_terms
    }

    /// An identifier for the author.
    pub fn created_by(&self) -> (r: &Option<User>) {
        &self.created_by
    }

    /// When the term set was created, as Unix seconds.
    pub fn created_on(&self) -> (r: i64) {
        self.created_on
    }

    /// When the term set was last updated, as Unix seconds.
    pub fn last_updated(&self) -> (r: i64) {
        self.last_updated
    }

    /// The name given to the term set.
    pub fn name(&self) -> (r: &Option<String>) {
        &self.name
    }

    /// The description given to the term set by its author.
    pub fn description(&self) -> (r: &Option<String>) {
        &self.description
    }

    /// The terminology version string.
    pub fn version(&self) -> (r: &String) {
        &self.version
    }
}

/// The compiled patterns of one term string that is known to compile.
pub open spec fn spec_codegen_of(term: Seq<char>) -> Seq<Seq<char>> {
    spec_compile(term)->Ok_0
}

/// Every term kept by a removal still compiles, when the original list did.
pub proof fn lemma_remove_compiles(terms: Seq<Seq<char>>, t: Seq<char>)
    requires
        forall|i: int| 0 <= i < terms.len() ==> spec_compile(#[trigger] terms[i]) is Ok,
    ensures
        forall|i: int| 0 <= i < spec_remove_term(terms, t).len() ==> spec_compile(
            #[trigger] spec_remove_term(terms, t)[i]) is Ok,
    decreases terms.len(),
{
    if terms.len() > 0 {
        let pre = terms.drop_last();
        assert forall|i: int| 0 <= i < pre.len() implies spec_compile(#[trigger] pre[i]) is Ok
            by {
            assert(pre[i] == terms[i]);
        }
        lemma_remove_compiles(pre, t);
        let r = spec_remove_term(terms, t);
        let rp = spec_remove_term(pre, t);
        assert forall|i: int| 0 <= i < r.len() implies spec_compile(#[trigger] r[i]) is Ok by {
            if i < rp.len() {
                assert(r[i] == rp[i]);
            } else {
                assert(terms.last() != t);
                assert(r[i] == terms.last());
                assert(terms[terms.len() - 1] == terms.last());
            }
        }
    }
}

/// The strings of `terms` with every copy of `t` removed.
fn remove_term_strings(terms: &Vec<String>, t: &String) -> (r: Vec<String>)
    ensures
        r.deep_view() == spec_remove_term(terms.deep_view(), t@),
{
    let n = terms.len();
    let mut out: Vec<String> = Vec::new();
    let mut i: usize = 0;
    while i < n
        invariant
            0 <= i <= n,
            n == terms@.len(),
            out.deep_view() =~= spec_remove_term(terms.deep_view().take(i as int), t@),
        decreases n - i,
    {
        proof {
            let dv = terms.deep_view();
            assert(dv.take(i + 1).drop_last() =~= dv.take(i as int));
            assert(dv.take(i + 1).last() == dv[i as int]);
            assert(dv[i as int] == terms@[i as int]@);
        }
        if !(terms[i] == *t) {
            let copied = terms[i].clone();
            out.push(copied);
            proof {
                assert(out.deep_view() =~= spec_remove_term(
                    terms.deep_view().take(i as int), t@) + seq![terms.deep_view()[i as int]]);
            }
        }
        proof {
            assert(out.deep_view() =~= spec_remove_term(terms.deep_view().take(i + 1), t@));
        }
        i += 1;
    }
    proof {
        assert(terms.deep_view().take(n as int) =~= terms.deep_view());
    }
    out
}

/// Law: a term set's match behaviour is determined by its term lists alone.
/// Two well-formed sets with the same include and exclude term strings match
/// exactly the same descriptions — in particular, a set saved and loaded
/// back (which recompiles its filters from the persisted term strings)
/// behaves exactly as before.
pub proof fn lemma_match_determined_by_terms(a: &TermSet, b: &TermSet)
    requires
        a.wf(),
        b.wf(),
        a.spec_include_terms() == b.spec_include_terms(),
        a.spec_exclude_terms() == b.spec_exclude_terms(),
    ensures
        forall|d: Seq<char>| #[trigger] a.spec_is_match(d) == b.spec_is_match(d),
        forall|ds: Seq<Seq<char>>| #[trigger] a.spec_is_match_multi(ds) == b.spec_is_match_multi(
            ds),
{
    assert(a.spec_includes() =~= b.spec_includes()) by {
        assert forall|i: int| 0 <= i < a.spec_includes().len() implies a.spec_includes()[i]
            == b.spec_includes()[i] by {
            assert(spec_compile(a.spec_include_terms()[i]) == Ok::<Seq<Seq<char>>, ParseError>(
                a.spec_includes()[i]));
            assert(spec_compile(b.spec_include_terms()[i]) == Ok::<Seq<Seq<char>>, ParseError>(
                b.spec_includes()[i]));
        }
    }
    assert(a.spec_excludes() =~= b.spec_excludes()) by {
        assert forall|i: int| 0 <= i < a.spec_excludes().len() implies a.spec_excludes()[i]
            == b.spec_excludes()[i] by {
            assert(spec_compile(a.spec_exclude_terms()[i]) == Ok::<Seq<Seq<char>>, ParseError>(
                a.spec_excludes()[i]));
            assert(spec_compile(b.spec_exclude_terms()[i]) == Ok::<Seq<Seq<char>>, ParseError>(
                b.spec_excludes()[i]));
        }
    }
}

/// Law: adding an include term and then removing it restores a term set
/// whose match behaviour is identical to the original, provided the term
/// was not already present. `before`, `mid` and `after` are the states
/// around the two edits.
pub proof fn lemma_include_edit_restores(before: &TermSet, mid: &TermSet, after: &TermSet,
    t: Seq<char>)
    requires
        before.wf(),
        mid.wf(),
        after.wf(),
        !before.spec_include_terms().contains(t),
        mid.spec_include_terms() == before.spec_include_terms().push(t),
        mid.spec_exclude_terms() == before.spec_exclude_terms(),
        after.spec_include_terms() == spec_remove_term(mid.spec_include_terms(), t),
        after.spec_exclude_terms() == mid.spec_exclude_terms(),
    ensures
        forall|d: Seq<char>| #[trigger] after.spec_is_match(d) == before.spec_is_match(d),
        forall|ds: Seq<Seq<char>>| #[trigger] after.spec_is_match_multi(ds)
            == before.spec_is_match_multi(ds),
{
    lemma_add_remove_term(before.spec_include_terms(), t);
    lemma_match_determined_by_terms(after, before);
}

} // verus!
