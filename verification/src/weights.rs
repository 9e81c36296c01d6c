//! Gate on the weights of the policy.
//!
//! The tool that quantizes the weights writes a manifest that says whether they
//! passed validation. Weights that did not must not reach the robot: a build
//! warns about them, and a strict build refuses them.
use vstd::prelude::*;
use vstd::string::StringSliceAdditionalSpecFns;

verus! {

/// The entry of a manifest that passed: `"validation_passed": true`.
pub const PASSED: [u8; 25] = [
    0x22, 0x76, 0x61, 0x6C, 0x69, 0x64, 0x61, 0x74, 0x69, 0x6F, 0x6E, 0x5F, 0x70,
    0x61, 0x73, 0x73, 0x65, 0x64, 0x22, 0x3A, 0x20, 0x74, 0x72, 0x75, 0x65,
];

/// The same entry without the blank: `"validation_passed":true`.
pub const PASSED_COMPACT: [u8; 24] = [
    0x22, 0x76, 0x61, 0x6C, 0x69, 0x64, 0x61, 0x74, 0x69, 0x6F, 0x6E, 0x5F, 0x70,
    0x61, 0x73, 0x73, 0x65, 0x64, 0x22, 0x3A, 0x74, 0x72, 0x75, 0x65,
];

/// What a build does with a set of weights.
#[derive(Debug, Clone, Copy, PartialEq, Eq)]
pub enum Gate {
    /// Builds.
    Accept,
    /// Builds, with a warning.
    Warn,
    /// Does not build.
    Refuse,
}

/// `pattern` stands at position `at` of `text`.
pub open spec fn stands_at(text: Seq<u8>, pattern: Seq<u8>, at: int) -> bool {
    &&& 0 <= at <= text.len() - pattern.len()
    &&& text.subrange(at, at + pattern.len()) == pattern
}

/// `pattern` stands somewhere in `text`.
pub open spec fn mentions(text: Seq<u8>, pattern: Seq<u8>) -> bool {
    exists|at: int| stands_at(text, pattern, at)
}

/// Whether `pattern` stands at position `at` of `text`.
fn matches_at(text: &[u8], pattern: &[u8], at: usize) -> (r: bool)
    requires
        at + pattern@.len() <= text@.len(),
    ensures
        r == stands_at(text@, pattern@, at as int),
{
    let mut i: usize = 0;
    while i < pattern.len()
        invariant
            at + pattern.len() <= text.len(),
            i <= pattern@.len(),
            forall|k: int| 0 <= k < i ==> text@[at + k] == #[trigger] pattern@[k],
        decreases pattern@.len() - i,
    {
        if text[at + i] != pattern[i] {
            assert(text@.subrange(at as int, at + pattern@.len())[i as int] != pattern@[i as int]);
            return false;
        }
        i += 1;
    }
    assert(text@.subrange(at as int, at + pattern@.len()) =~= pattern@);
    true
}

/// Whether `pattern` stands somewhere in `text`.
pub fn contains(text: &[u8], pattern: &[u8]) -> (r: bool)
    ensures
        r == mentions(text@, pattern@),
{
    if pattern.len() > text.len() {
        return false;
    }
    let last: usize = text.len() - pattern.len();
    let mut at: usize = 0;
    loop
        invariant
            last == text@.len() - pattern@.len(),
            at <= last,
            forall|k: int| 0 <= k < at ==> !stands_at(text@, pattern@, k),
        decreases last - at,
    {
        if matches_at(text, pattern, at) {
            return true;
        }
        if at == last {
            return false;
        }
        at += 1;
    }
}

/// Whether a manifest says that its weights passed validation.
pub fn validation_passed(manifest: &str) -> (r: bool)
    ensures
        r == (mentions(manifest.spec_bytes(), PASSED@) || mentions(
            manifest.spec_bytes(),
            PASSED_COMPACT@,
        )),
{
    let text = manifest.as_bytes();
    contains(text, PASSED.as_slice()) || contains(text, PASSED_COMPACT.as_slice())
}

/// What a build does with weights that passed validation or not, if it is strict
/// or not.
pub fn weights_gate(passed: bool, strict: bool) -> (r: Gate)
    ensures
        r == if passed {
            Gate::Accept
        } else if strict {
            Gate::Refuse
        } else {
            Gate::Warn
        },
{
    if passed {
        Gate::Accept
    } else if strict {
        Gate::Refuse
    } else {
        Gate::Warn
    }
}

/// Weights are accepted exactly if they passed validation; those that did not are
/// refused exactly by a strict build, and any other build warns of them.
pub proof fn only_valid_weights_are_accepted(passed: bool, strict: bool, r: Gate)
    requires
        call_ensures(weights_gate, (passed, strict), r),
    ensures
        r is Accept <==> passed,
        r is Refuse <==> !passed && strict,
        r is Warn <==> !passed && !strict,
{
}

/// A manifest whose bytes hold the entry, wherever it stands and whatever is around it,
/// says that its weights passed.
pub proof fn entry_is_found_anywhere(manifest: &str, before: Seq<u8>, after: Seq<u8>, r: bool)
    requires
        call_ensures(validation_passed, (manifest,), r),
    ensures
        manifest.spec_bytes() == before + PASSED@ + after ==> r,
        manifest.spec_bytes() == before + PASSED_COMPACT@ + after ==> r,
{
    let text = manifest.spec_bytes();
    if text == before + PASSED@ + after {
        assert(text.subrange(before.len() as int, before.len() as int + PASSED@.len()) =~= PASSED@);
        assert(stands_at(text, PASSED@, before.len() as int));
    }
    if text == before + PASSED_COMPACT@ + after {
        assert(text.subrange(before.len() as int, before.len() as int + PASSED_COMPACT@.len())
            =~= PASSED_COMPACT@);
        assert(stands_at(text, PASSED_COMPACT@, before.len() as int));
    }
}

/// A manifest without the word `true` in it never says that its weights passed.
pub proof fn passing_takes_the_word_true(manifest: &str, r: bool)
    requires
        call_ensures(validation_passed, (manifest,), r),
        forall|i: int|
            0 <= i <= manifest.spec_bytes().len() - 4 ==> #[trigger] manifest.spec_bytes().subrange(
                i,
                i + 4,
            ) != seq![0x74u8, 0x72u8, 0x75u8, 0x65u8],
    ensures
        !r,
{
    let text = manifest.spec_bytes();
    let word = seq![0x74u8, 0x72u8, 0x75u8, 0x65u8];
    if mentions(text, PASSED@) {
        let at = choose|at: int| stands_at(text, PASSED@, at);
        let entry = text.subrange(at, at + PASSED@.len());
        assert(entry.subrange(21, 25) =~= word);
        assert(entry.subrange(21, 25) =~= text.subrange(at + 21, at + 21 + 4));
    }
    if mentions(text, PASSED_COMPACT@) {
        let at = choose|at: int| stands_at(text, PASSED_COMPACT@, at);
        let entry = text.subrange(at, at + PASSED_COMPACT@.len());
        assert(entry.subrange(20, 24) =~= word);
        assert(entry.subrange(20, 24) =~= text.subrange(at + 20, at + 20 + 4));
    }
}

} // verus!
