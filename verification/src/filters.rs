//! Word filtering: whether a command text contains any of a list of words,
//! optionally case-folded.  The substring search itself is verified; only
//! Unicode case folding is left to the standard library, behind a trusted
//! wrapper whose result is named `lower_of`.
use crate::text::{chars_of, contains_chars, contains_seq};
use vstd::prelude::*;

verus! {

/// What `str::to_lowercase` returns for a given character sequence.
pub uninterp spec fn lower_of(s: Seq<char>) -> Seq<char>;

/// Relies on `str::to_lowercase`: the Unicode lowercase mapping of the
/// string, a function of its characters alone.
#[verifier::external_body]
fn lowercase(s: &str) -> (r: String)
    ensures
        r@ == lower_of(s@),
{
    s.to_lowercase()
}

/// A list of words to match against command texts.
pub struct Filter {
    /// The words searched for.
    pub words: Vec<String>,
    /// Whether matching ignores case.
    pub ignore_case: bool,
}

/// Whether `cmd` contains one of `words`, case-folded when `ignore_case`.
/// An empty word list matches nothing.
pub open spec fn spec_filter_matches(
    words: Seq<Seq<char>>,
    ignore_case: bool,
    cmd: Seq<char>,
) -> bool {
    if ignore_case {
        exists|i: int|
            0 <= i < words.len() && contains_seq(lower_of(cmd), lower_of(#[trigger] words[i]))
    } else {
        exists|i: int| 0 <= i < words.len() && contains_seq(cmd, #[trigger] words[i])
    }
}

impl Filter {
    /// Builds a filter over the given words.
    pub fn new(words: &[String], ignore_case: bool) -> (r: Filter)
        ensures
            r.words@.map_values(|w: String| w@) == words@.map_values(|w: String| w@),
            r.ignore_case == ignore_case,
    {
        let mut copied: Vec<String> = Vec::new();
        let mut i: usize = 0;
        proof {
            assert(copied@.map_values(|w: String| w@) =~= words@.map_values(|w: String| w@).take(
                0,
            ));
        }
        while i < words.len()
            invariant
                i <= words@.len(),
                copied@.map_values(|w: String| w@) == words@.map_values(|w: String| w@).take(
                    i as int,
                ),
            decreases words@.len() - i,
        {
            copied.push(words[i].clone());
            proof {
                let wm = words@.map_values(|w: String| w@);
                assert(copied@.map_values(|w: String| w@) =~= copied@.drop_last().map_values(
                    |w: String| w@,
                ).push(copied@.last()@));
                assert(wm.take(i as int + 1).drop_last() =~= wm.take(i as int));
                assert(wm.take(i as int + 1).last() == wm[i as int]);
                assert(wm[i as int] == words@[i as int]@);
                assert(copied@.last()@ == words@[i as int]@);
                assert(copied@.map_values(|w: String| w@) =~= wm.take(i as int + 1));
            }
            i = i + 1;
        }
        proof {
            assert(words@.map_values(|w: String| w@).take(words@.len() as int) =~= words@.map_values(
                |w: String| w@,
            ));
        }
        Filter { words: copied, ignore_case }
    }

    /// Whether the command contains any of the filter's words.
    pub fn matches(&self, command: &str) -> (r: bool)
        ensures
            r == spec_filter_matches(
                self.words@.map_values(|w: String| w@),
                self.ignore_case,
                command@,
            ),
    {
        let ghost ws = self.words@.map_values(|w: String| w@);
        let hay: String = if self.ignore_case {
            lowercase(command)
        } else {
            command.to_owned()
        };
        let hv = chars_of(hay.as_str());
        let mut i: usize = 0;
        while i < self.words.len()
            invariant
                ws == self.words@.map_values(|w: String| w@),
                i <= ws.len(),
                self.ignore_case ==> hv@ == lower_of(command@),
                !self.ignore_case ==> hv@ == command@,
                self.ignore_case ==> forall|k: int|
                    0 <= k < i ==> !contains_seq(lower_of(command@), lower_of(#[trigger] ws[k])),
                !self.ignore_case ==> forall|k: int|
                    0 <= k < i ==> !contains_seq(command@, #[trigger] ws[k]),
            decreases ws.len() - i,
        {
            let needle: String = if self.ignore_case {
                lowercase(self.words[i].as_str())
            } else {
                self.words[i].clone()
            };
            let nv = chars_of(needle.as_str());
            proof {
                assert(ws[i as int] == self.words@[i as int]@);
            }
            if contains_chars(&hv, &nv) {
                return true;
            }
            i = i + 1;
        }
        false
    }
}

} // verus!
