//! Keyword matching: a multi-pattern ASCII-case-insensitive substring
//! matcher over the configured keywords, and the processor that gates
//! export and scores outlinks with it. When the matcher is disabled,
//! every text counts as a match.

use vstd::prelude::*;
use vstd::pervasive::VecAdditionalExecFns;

use aho_corasick::AhoCorasick;
use crate::config::NlpConfig;
use crate::parser::OutlinkWithScore;
use crate::strutil::lower_seq;
use crate::strutil::trimmed;
use crate::strutil::trim_str;
use crate::strutil::occurs;

verus! {

#[verifier::external_type_specification]
#[verifier::external_body]
pub struct ExAhoCorasick(AhoCorasick);

/// The patterns a built automaton recognizes.
pub uninterp spec fn ac_patterns(ac: AhoCorasick) -> Seq<Seq<char>>;

/// Whether the automaton over these patterns builds: AhoCorasick::build
/// succeeds or fails as a function of the pattern list alone.
pub uninterp spec fn ac_build_ok(pats: Seq<Seq<char>>) -> bool;

/// `pat` occurs in `text` when both are ASCII-lower-cased.
pub open spec fn contains_ci(pat: Seq<char>, text: Seq<char>) -> bool {
    occurs(lower_seq(text), lower_seq(pat))
}

/// Some of the patterns occurs in the text, case-insensitively.
pub open spec fn any_pattern_matches(pats: Seq<Seq<char>>, text: Seq<char>) -> bool {
    exists|k: int| 0 <= k < pats.len() && contains_ci(#[trigger] pats[k], text)
}

/// Relies on aho_corasick::AhoCorasickBuilder with leftmost-first match
/// kind and ascii_case_insensitive, and AhoCorasick::build: whether the
/// build succeeds is decided by the pattern list alone, and on success
/// the automaton recognizes exactly the given patterns.
#[verifier::external_body]
fn build_matcher(keywords: &Vec<String>) -> (r: Result<AhoCorasick, String>)
    ensures
        r is Ok <==> ac_build_ok(keywords@.map_values(|k: String| k@)),
        match r {
            Ok(ac) => ac_patterns(ac) == keywords@.map_values(|k: String| k@),
            Err(_) => true,
        },
{
    aho_corasick::AhoCorasickBuilder::new().match_kind(
        aho_corasick::MatchKind::LeftmostFirst,
    ).ascii_case_insensitive(true).build(keywords).map_err(|e| e.to_string())
}

/// Relies on aho_corasick::AhoCorasick::is_match: true exactly when
/// some pattern occurs in the text; with ascii_case_insensitive this is
/// occurrence of the lower-cased pattern in the lower-cased text.
#[verifier::external_body]
fn ac_is_match(ac: &AhoCorasick, text: &str) -> (r: bool)
    ensures
        r == any_pattern_matches(ac_patterns(*ac), text@),
{
    ac.is_match(text)
}

/// The multi-pattern automaton over the configured keywords.
pub struct KeywordMatcher {
    pub ac: AhoCorasick,
}

impl KeywordMatcher {
    /// The patterns this matcher was built from.
    pub open spec fn patterns(self) -> Seq<Seq<char>> {
        ac_patterns(self.ac)
    }

    /// Builds the automaton; this succeeds exactly when the automaton
    /// over these patterns builds.
    pub fn new(keywords: &Vec<String>) -> (r: Result<KeywordMatcher, String>)
        ensures
            r is Ok <==> ac_build_ok(keywords@.map_values(|k: String| k@)),
            match r {
                Ok(m) => m.patterns() == keywords@.map_values(|k: String| k@),
                Err(_) => true,
            },
    {
        match build_matcher(keywords) {
            Ok(ac) => Ok(KeywordMatcher { ac }),
            Err(e) => Err(e),
        }
    }

    /// Whether any keyword appears in the text.
    pub fn find(&self, text: &str) -> (r: bool)
        ensures
            r == any_pattern_matches(self.patterns(), text@),
    {
        ac_is_match(&self.ac, text)
    }
}

/// Applies the keyword policy: gate content and score outlinks, or pass
/// everything through when disabled.
pub struct NlpProcessor {
    pub keyword_matcher: Option<KeywordMatcher>,
}

impl NlpProcessor {
    pub open spec fn enabled(self) -> bool {
        self.keyword_matcher is Some
    }

    /// The patterns in force; empty when disabled.
    pub open spec fn spec_patterns(self) -> Seq<Seq<char>> {
        match self.keyword_matcher {
            Some(m) => m.patterns(),
            None => Seq::<Seq<char>>::empty(),
        }
    }

    /// Builds the processor: disabled configurations always succeed;
    /// enabled ones succeed exactly when the automaton over the trimmed
    /// keywords builds.
    pub fn new(config: &NlpConfig) -> (r: Result<NlpProcessor, String>)
        ensures
            !config.enabled ==> (r matches Ok(p) && !p.enabled()),
            config.enabled ==> (r is Ok <==> ac_build_ok(
                config.keywords@.map_values(|k: String| trimmed(k@)),
            )),
            config.enabled ==> match r {
                Ok(p) => p.enabled() && p.spec_patterns() == config.keywords@.map_values(
                    |k: String| trimmed(k@),
                ),
                Err(_) => true,
            },
    {
        if config.enabled {
            let mut keywords: Vec<String> = Vec::new();
            let mut i: usize = 0;
            while i < config.keywords.len()
                invariant
                    i <= config.keywords@.len(),
                    keywords@.len() == i,
                    forall|a: int| 0 <= a < i ==> (#[trigger] keywords@[a]@) == trimmed(
                        config.keywords@[a]@,
                    ),
                decreases config.keywords@.len() - i,
            {
                keywords.push(trim_str(config.keywords[i].as_str()));
                i = i + 1;
            }
            proof {
                assert(keywords@.map_values(|k: String| k@) =~~= config.keywords@
                    .map_values(|k: String| trimmed(k@)));
            }
            match KeywordMatcher::new(&keywords) {
                Ok(m) => {
                    proof {
                        assert(m.patterns() =~~= config.keywords@.map_values(
                            |k: String| trimmed(k@),
                        ));
                    }
                    Ok(NlpProcessor { keyword_matcher: Some(m) })
                },
                Err(e) => Err(e),
            }
        } else {
            Ok(NlpProcessor { keyword_matcher: None })
        }
    }

    /// The export gate: with the matcher disabled every text matches;
    /// otherwise a text matches exactly when some keyword occurs in it,
    /// case-insensitively.
    pub fn is_match(&self, text: &str) -> (r: bool)
        ensures
            !self.enabled() ==> r == true,
            self.enabled() ==> r == any_pattern_matches(self.spec_patterns(), text@),
    {
        match &self.keyword_matcher {
            Some(matcher) => matcher.find(text),
            None => true,
        }
    }

    /// The score an outlink text receives.
    pub open spec fn spec_score(self, text: Seq<char>) -> Option<u8> {
        if !self.enabled() {
            None
        } else if any_pattern_matches(self.spec_patterns(), text) {
            Some(1u8)
        } else {
            Some(0u8)
        }
    }

    /// Scores one outlink: 1 on a keyword match, 0 otherwise, and no
    /// score at all when the matcher is disabled.
    pub fn score_outlink(&self, outlink_text: &str) -> (r: Option<u8>)
        ensures
            r == self.spec_score(outlink_text@),
    {
        match &self.keyword_matcher {
            Some(matcher) => {
                if matcher.find(outlink_text) {
                    Some(1)
                } else {
                    Some(0)
                }
            },
            None => None,
        }
    }

    /// Scores every outlink in place, leaving the URLs unchanged.
    pub fn score_outlinks(&self, outlinks: &mut Vec<OutlinkWithScore>)
        ensures
            final(outlinks)@.len() == old(outlinks)@.len(),
            forall|i: int|
                0 <= i < old(outlinks)@.len() ==> (#[trigger] final(outlinks)@[i]).url@
                    == old(outlinks)@[i].url@ && final(outlinks)@[i].nlp_score
                    == self.spec_score(old(outlinks)@[i].url@),
    {
        let mut i: usize = 0;
        while i < outlinks.len()
            invariant
                i <= outlinks@.len(),
                outlinks@.len() == old(outlinks)@.len(),
                forall|a: int|
                    i <= a < outlinks@.len() ==> #[trigger] outlinks@[a]
                        == old(outlinks)@[a],
                forall|a: int|
                    0 <= a < i ==> (#[trigger] outlinks@[a]).url@ == old(outlinks)@[a].url@
                        && outlinks@[a].nlp_score == self.spec_score(old(outlinks)@[a].url@),
            decreases outlinks@.len() - i,
        {
            let url = String::from_str(outlinks[i].url.as_str());
            let score = self.score_outlink(url.as_str());
            outlinks.set(i, OutlinkWithScore { url, nlp_score: score });
            i = i + 1;
        }
    }

    /// Whether keyword processing is in force.
    pub fn is_enabled(&self) -> (r: bool)
        ensures
            r == self.enabled(),
    {
        self.keyword_matcher.is_some()
    }

    /// The configured keywords are not retained beyond the automaton;
    /// this reports none.
    pub fn get_keywords(&self) -> (r: Vec<String>)
        ensures
            r@.len() == 0,
    {
        Vec::new()
    }
}

} // verus!
