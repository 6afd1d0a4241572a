//! Counts the failures to activate a DDS entity, so that a test can assert that
//! there were none.
//!
//! Failures to activate, re-activate or create an entity are recorded. Failures
//! while an entity is deliberately taken down are not: they are expected there.
//! Each record keeps a short text, the code path and what went wrong, until the
//! buffer of texts is full.
use crate::text::{join3, texts_of};
use vstd::prelude::*;

verus! {

/// How many texts are kept at most, so that a long run stays bounded.
pub const MAX_DETAILS: usize = 1024;

/// The failures recorded so far.
#[derive(Debug)]
pub struct ActivationFailures {
    count: u64,
    details: Vec<String>,
}

/// The specification value of [`ActivationFailures`].
pub struct FailuresView {
    pub count: u64,
    pub details: Seq<Seq<char>>,
}

impl View for ActivationFailures {
    type V = FailuresView;

    closed spec fn view(&self) -> FailuresView {
        FailuresView { count: self.count, details: texts_of(self.details@) }
    }
}

/// The text that is kept of a failure.
pub open spec fn failure_text(path: Seq<char>, detail: Seq<char>) -> Seq<char> {
    path + ": "@ + detail
}

/// Nothing recorded.
pub open spec fn no_failures() -> FailuresView {
    FailuresView { count: 0, details: Seq::empty() }
}

/// The records once a failure with the given text is added.
pub open spec fn with_failure(s: FailuresView, text: Seq<char>) -> FailuresView {
    FailuresView {
        count: s.count.wrapping_add(1),
        details: if s.details.len() < MAX_DETAILS {
            s.details.push(text)
        } else {
            s.details
        },
    }
}

/// The records once all the failures with the given texts are added.
pub open spec fn with_failures(s: FailuresView, texts: Seq<Seq<char>>) -> FailuresView
    decreases texts.len(),
{
    if texts.len() == 0 {
        s
    } else {
        with_failure(with_failures(s, texts.drop_last()), texts.last())
    }
}

impl ActivationFailures {
    /// Nothing recorded yet.
    pub fn new() -> (r: ActivationFailures)
        ensures
            r@ == no_failures(),
    {
        let r = ActivationFailures { count: 0, details: Vec::new() };
        assert(texts_of(r.details@) =~= Seq::empty());
        r
    }
}

impl Default for ActivationFailures {
    fn default() -> (r: ActivationFailures)
        ensures
            r@ == no_failures(),
    {
        ActivationFailures::new()
    }
}

/// Records one failure: `path` names the code path, `detail` the route and the
/// error.
pub fn record_activation_failure(failures: &mut ActivationFailures, path: &str, detail: &str)
    ensures
        final(failures)@ == with_failure(old(failures)@, failure_text(path@, detail@)),
{
    failures.count = failures.count.wrapping_add(1);
    if failures.details.len() < MAX_DETAILS {
        let text = join3(path, ": ", detail);
        let ghost before = failures.details@;
        failures.details.push(text);
        assert(texts_of(failures.details@) =~= texts_of(before).push(text@));
    }
}

/// The number of failures recorded since the start or the last reset.
pub fn test_dds_activation_failures(failures: &ActivationFailures) -> (r: u64)
    ensures
        r == failures@.count,
{
    failures.count
}

/// Drains and returns the texts of the recorded failures.
pub fn test_dds_activation_failure_details(failures: &mut ActivationFailures) -> (r: Vec<String>)
    ensures
        texts_of(r@) == old(failures)@.details,
        final(failures)@ == (FailuresView { count: old(failures)@.count, details: Seq::empty() }),
{
    let mut r: Vec<String> = Vec::new();
    std::mem::swap(&mut r, &mut failures.details);
    assert(texts_of(failures.details@) =~= Seq::empty());
    r
}

/// Forgets all that was recorded.
pub fn test_reset_activation_failures(failures: &mut ActivationFailures)
    ensures
        final(failures)@ == no_failures(),
{
    failures.count = 0;
    failures.details = Vec::new();
    assert(texts_of(failures.details@) =~= Seq::empty());
}

/// After a start or a reset every failure counts, and the texts of the first
/// ones are kept, in order, up to the bound.
pub proof fn law_first_details_are_kept(texts: Seq<Seq<char>>)
    requires
        texts.len() <= u64::MAX,
    ensures
        with_failures(no_failures(), texts).count == texts.len(),
        with_failures(no_failures(), texts).details == (if texts.len() <= MAX_DETAILS {
            texts
        } else {
            texts.take(MAX_DETAILS as int)
        }),
    decreases texts.len(),
{
    if texts.len() > 0 {
        let rest = texts.drop_last();
        law_first_details_are_kept(rest);
        if texts.len() <= MAX_DETAILS {
            assert(rest.push(texts.last()) =~= texts);
        } else if texts.len() == MAX_DETAILS + 1 {
            assert(rest =~= texts.take(MAX_DETAILS as int));
        } else {
            assert(rest.take(MAX_DETAILS as int) =~= texts.take(MAX_DETAILS as int));
        }
    }
}

/// The buffer of texts never grows beyond its bound.
pub proof fn law_details_are_bounded(s: FailuresView, texts: Seq<Seq<char>>)
    requires
        s.details.len() <= MAX_DETAILS,
    ensures
        with_failures(s, texts).details.len() <= MAX_DETAILS,
    decreases texts.len(),
{
    if texts.len() > 0 {
        law_details_are_bounded(s, texts.drop_last());
    }
}

/// A failure counts, and its text is kept behind those that were kept, as long as
/// there are fewer than 1024: the code path, a colon and what went wrong.
pub proof fn law_failure_is_kept(s: FailuresView, path: Seq<char>, detail: Seq<char>)
    ensures
        ({
            let after = with_failure(s, failure_text(path, detail));
            &&& s.count < u64::MAX ==> after.count == s.count + 1
            &&& s.details.len() < 1024 ==> after.details.len() == s.details.len() + 1
                && after.details.last() == path + seq![':', ' '] + detail
                && after.details.drop_last() == s.details
            &&& s.details.len() >= 1024 ==> after.details == s.details
        }),
{
    reveal_strlit(": ");
    assert(": "@ =~= seq![':', ' ']);
    let after = with_failure(s, failure_text(path, detail));
    if s.details.len() < 1024 {
        assert(after.details.drop_last() =~= s.details);
    }
}

} // verus!
