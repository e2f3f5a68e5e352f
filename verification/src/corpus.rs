//! Classifying the corpus of real-world scripts: which files are known not
//! to parse, and the tally of a run over the corpus. Walking the corpus and
//! reading its files is the caller's part.

use vstd::prelude::*;

verus! {

/// Whether `rel` (a `/`-separated path relative to the corpus root) names a
/// file whose source holds a parse-blocking typo upstream: one reading
/// `l[]` as a list, one with a mismatched closing bracket, and one
/// with two adjacent list literals and no `,` between them.
pub open spec fn known_bad(rel: Seq<char>) -> bool {
    ||| rel == "gnembon/scarpet/programs/survival/portalorient.sc"@
    ||| rel == "gnembon/scarpet/programs/survival/rifts/rifts.sc"@
    ||| rel == "Ghoulboy78/Scarpet-edit/se.sc"@
}

/// Whether `rel` names a file known not to parse (see [`known_bad`]).
pub fn is_known_bad(rel: &str) -> (b: bool)
    ensures
        b == known_bad(rel@),
{
    let r = String::from_str(rel);
    r == String::from_str("gnembon/scarpet/programs/survival/portalorient.sc") || r
        == String::from_str("gnembon/scarpet/programs/survival/rifts/rifts.sc") || r
        == String::from_str("Ghoulboy78/Scarpet-edit/se.sc")
}

/// The tally of a run over the corpus.
#[derive(Debug)]
pub struct Outcome {
    /// How many files the run saw.
    pub total: usize,
    /// Files that parsed and were expected to.
    pub ok: usize,
    /// Known-bad files that failed, as expected.
    pub expected_failures: usize,
    /// Files that failed to parse though not known bad.
    pub unexpected_failures: Vec<String>,
    /// Known-bad files that parsed after all.
    pub unexpected_passes: Vec<String>,
}

impl Default for Outcome {
    /// An empty tally.
    fn default() -> (r: Outcome)
        ensures
            r.total == 0,
            r.ok == 0,
            r.expected_failures == 0,
            r.unexpected_failures@.len() == 0,
            r.unexpected_passes@.len() == 0,
    {
        Outcome {
            total: 0,
            ok: 0,
            expected_failures: 0,
            unexpected_failures: Vec::new(),
            unexpected_passes: Vec::new(),
        }
    }
}

impl Outcome {
    /// Records one file of the corpus, `rel` relative to its root, by
    /// whether it parsed and whether it is known bad: a parse that was
    /// expected counts as ok, a known-bad failure as expected, and the two
    /// surprises are listed by path.
    pub fn record(&mut self, rel: String, parsed: bool)
        requires
            old(self).ok < usize::MAX,
            old(self).expected_failures < usize::MAX,
        ensures
            final(self).total == old(self).total,
            ({
                let bad = known_bad(rel@);
                let same = final(self).unexpected_failures@ == old(self).unexpected_failures@
                    && final(self).unexpected_passes@ == old(self).unexpected_passes@;
                if parsed && !bad {
                    final(self).ok == old(self).ok + 1 && final(self).expected_failures
                        == old(self).expected_failures && same
                } else if parsed && bad {
                    final(self).ok == old(self).ok && final(self).expected_failures
                        == old(self).expected_failures && final(self).unexpected_passes@
                        == old(self).unexpected_passes@.push(rel)
                        && final(self).unexpected_failures@ == old(self).unexpected_failures@
                } else if bad {
                    final(self).ok == old(self).ok && final(self).expected_failures
                        == old(self).expected_failures + 1 && same
                } else {
                    final(self).ok == old(self).ok && final(self).expected_failures
                        == old(self).expected_failures && final(self).unexpected_failures@
                        == old(self).unexpected_failures@.push(rel)
                        && final(self).unexpected_passes@ == old(self).unexpected_passes@
                }
            }),
    {
        let bad = is_known_bad(rel.as_str());
        if parsed && !bad {
            self.ok = self.ok + 1;
        } else if parsed && bad {
            self.unexpected_passes.push(rel);
        } else if bad {
            self.expected_failures = self.expected_failures + 1;
        } else {
            self.unexpected_failures.push(rel);
        }
    }

    /// Whether the run met every expectation: no surprise failures and no
    /// surprise passes.
    pub fn is_clean(&self) -> (b: bool)
        ensures
            b == (self.unexpected_failures@.len() == 0 && self.unexpected_passes@.len() == 0),
    {
        self.unexpected_failures.len() == 0 && self.unexpected_passes.len() == 0
    }
}

} // verus!
