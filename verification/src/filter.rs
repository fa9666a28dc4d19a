//! Title filters: comma-separated pattern specifications compiled into
//! case-insensitive matchers, and the keep/exclude decision with its
//! reversal mode.

use vstd::prelude::*;

use crate::text::split_string;

verus! {

/// One filter specification as configured: a label and a comma-separated
/// list of patterns.
pub struct ItemFilter {
    pub title: String,
    pub value: String,
}

impl Clone for ItemFilter {
    fn clone(&self) -> (r: Self)
        ensures
            r == *self,
    {
        ItemFilter { title: self.title.clone(), value: self.value.clone() }
    }
}

#[verifier::external_type_specification]
#[verifier::external_body]
pub struct ExRegex(regex::Regex);

/// Whether the case-insensitive regex built from the lowercased `pattern`
/// matches `text`. The relation is a function of the two strings alone;
/// only the regex engine says what it is on given values.
pub uninterp spec fn ci_match(pattern: Seq<char>, text: Seq<char>) -> bool;

/// Whether the lowercased `pattern` builds as a case-insensitive regex.
pub uninterp spec fn compiles(pattern: Seq<char>) -> bool;

/// A compiled matcher, paired with the pattern text it was built from.
pub struct TitleFilter {
    re: regex::Regex,
    pattern: String,
}

/// Relies on `regex::RegexBuilder::build`: whether a pattern compiles
/// depends on the pattern text alone, and the compiled matcher is kept
/// beside that text.
#[verifier::external_body]
fn compile_one(pattern: &String) -> (r: Option<TitleFilter>)
    ensures
        r is Some <==> compiles(pattern@),
        r matches Some(f) ==> f.pattern@ == pattern@,
{
    match regex::RegexBuilder::new(&pattern.to_lowercase()).case_insensitive(true).build() {
        Ok(re) => Some(TitleFilter { re, pattern: pattern.clone() }),
        Err(_) => None,
    }
}

/// Relies on `regex::Regex::is_match`: whether a compiled case-insensitive
/// matcher accepts a title depends on the pattern and the title alone.
#[verifier::external_body]
fn filter_matches(f: &TitleFilter, text: &str) -> (r: bool)
    ensures
        r == ci_match(f.pattern@, text@),
{
    f.re.is_match(text)
}

/// The pattern texts of a list of compiled filters. Closed: a compiled
/// matcher's pattern is only reachable through the contracts here.
pub closed spec fn patterns_of(fs: Seq<TitleFilter>) -> Seq<Seq<char>> {
    fs.map_values(|f: TitleFilter| f.pattern@)
}

/// All comma-delimited pattern tokens of the specifications, flattened in
/// order.
pub open spec fn tokens_of(filters: Seq<ItemFilter>) -> Seq<Seq<char>>
    decreases filters.len(),
{
    if filters.len() == 0 {
        Seq::empty()
    } else {
        tokens_of(filters.drop_last()) + crate::text::split_spec(filters.last().value@, ',')
    }
}

/// The tokens that compile, in order; the rest are dropped.
pub open spec fn compiled_of(tokens: Seq<Seq<char>>) -> Seq<Seq<char>>
    decreases tokens.len(),
{
    if tokens.len() == 0 {
        Seq::empty()
    } else {
        let init = compiled_of(tokens.drop_last());
        if compiles(tokens.last()) {
            init.push(tokens.last())
        } else {
            init
        }
    }
}

pub struct Filters {}

impl Filters {
    /// Compile every comma-delimited token of every specification into a
    /// case-insensitive matcher; tokens that fail to compile are dropped
    /// and compilation of the rest continues.
    pub fn compile(filters: &[ItemFilter]) -> (r: Vec<TitleFilter>)
        ensures
            patterns_of(r@) == compiled_of(tokens_of(filters@)),
    {
        let mut out: Vec<TitleFilter> = Vec::new();
        let mut i: usize = 0;
        proof {
            assert(patterns_of(out@) =~= compiled_of(tokens_of(filters@.subrange(0, 0))));
        }
        while i < filters.len()
            invariant
                0 <= i <= filters@.len(),
                patterns_of(out@) == compiled_of(tokens_of(filters@.subrange(0, i as int))),
            decreases filters@.len() - i,
        {
            let ghost done = tokens_of(filters@.subrange(0, i as int));
            let value = &filters[i].value;
            let parts = split_string(value.as_str(), 0, ',');
            proof {
                assert(value@.subrange(0, value@.len() as int) =~= value@);
            }
            let mut j: usize = 0;
            while j < parts.len()
                invariant
                    0 <= j <= parts@.len(),
                    parts.deep_view() == crate::text::split_spec(value@, ','),
                    patterns_of(out@) == compiled_of(done + parts.deep_view().subrange(0, j as int)),
                decreases parts@.len() - j,
            {
                let ghost sofar = done + parts.deep_view().subrange(0, j as int);
                proof {
                    assert(parts@[j as int].deep_view() == parts.deep_view()[j as int]);
                    assert((done + parts.deep_view().subrange(0, j + 1)).drop_last() =~= sofar);
                    assert((done + parts.deep_view().subrange(0, j + 1)).last() == parts.deep_view()[j as int]);
                }
                match compile_one(&parts[j]) {
                    Some(tf) => {
                        out.push(tf);
                        proof {
                            assert(patterns_of(out@) =~= patterns_of(out@.drop_last()).push(
                                tf.pattern@,
                            ));
                            assert(patterns_of(out@) =~= compiled_of(
                                done + parts.deep_view().subrange(0, j + 1),
                            ));
                        }
                    },
                    None => {
                        proof {
                            assert(patterns_of(out@) =~= compiled_of(
                                done + parts.deep_view().subrange(0, j + 1),
                            ));
                        }
                    },
                }
                j += 1;
            }
            proof {
                assert(done + parts.deep_view().subrange(0, parts.deep_view().len() as int)
                    =~= done + parts.deep_view());
                assert(filters@.subrange(0, i + 1).drop_last() =~= filters@.subrange(0, i as int));
                assert(filters@.subrange(0, i + 1).last() == filters@[i as int]);
                assert(tokens_of(filters@.subrange(0, i + 1)) =~= done + parts.deep_view());
            }
            i += 1;
        }
        proof {
            assert(filters@.subrange(0, filters@.len() as int) =~= filters@);
        }
        out
    }
}

/// Whether any pattern of the set matches the title.
pub open spec fn any_match(patterns: Seq<Seq<char>>, title: Seq<char>) -> bool {
    exists|i: int| 0 <= i < patterns.len() && ci_match(patterns[i], title)
}

/// The keep/exclude decision. Normal mode keeps a title if any pattern
/// matches; reverse mode keeps exactly the complement, over the whole set.
pub open spec fn keep_spec(patterns: Seq<Seq<char>>, title: Seq<char>, reverse: bool) -> bool {
    if reverse {
        !any_match(patterns, title)
    } else {
        any_match(patterns, title)
    }
}

/// Keep an item based on the filters. If `reverse` is true, keep the item
/// exactly when no filter matches.
pub fn keep_item(filters: &Vec<TitleFilter>, title: &str, reverse: bool) -> (keep: bool)
    ensures
        keep == keep_spec(patterns_of(filters@), title@, reverse),
{
    let mut k: usize = 0;
    while k < filters.len()
        invariant
            0 <= k <= filters@.len(),
            forall|j: int| 0 <= j < k ==> !ci_match(patterns_of(filters@)[j], title@),
        decreases filters@.len() - k,
    {
        if filter_matches(&filters[k], title) {
            proof {
                assert(ci_match(patterns_of(filters@)[k as int], title@));
                assert(any_match(patterns_of(filters@), title@));
            }
            return !reverse;
        }
        k += 1;
    }
    proof {
        if any_match(patterns_of(filters@), title@) {
            let i = choose|i: int|
                0 <= i < patterns_of(filters@).len() && ci_match(patterns_of(filters@)[i], title@);
            assert(!ci_match(patterns_of(filters@)[i], title@));
        }
    }
    reverse
}

/// Law: for any pattern set and title, the reverse-mode decision is the
/// logical negation of the normal-mode decision.
pub proof fn lemma_filter_symmetry(patterns: Seq<Seq<char>>, title: Seq<char>)
    ensures
        keep_spec(patterns, title, true) == !keep_spec(patterns, title, false),
{
}

} // verus!
