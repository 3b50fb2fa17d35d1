//! Checks on the shape of requests.

use vstd::prelude::*;
use vstd::string::StringExecFns;
use crate::text::{chars_of, is_blank, lemma_trimmed, trim};
use crate::types::{AnalysisResult, RefineRequest, TimeAllocation};

verus! {

/// The longest content, in bytes, that a request to refine may carry.
pub const MAX_CONTENT_BYTES: usize = 100_000;

/// A value that can be checked before it is acted on.
pub trait Validate {
    /// What is wrong with the value: the first complaint, or none.
    spec fn complaint(&self) -> Option<Seq<char>>;

    /// Checks the value and gives the first complaint, if there is one.
    fn validate(&self) -> (out: Result<(), String>)
        ensures
            match out {
                Ok(_) => self.complaint() is None,
                Err(message) => self.complaint() == Some(message@),
            },
    ;
}

/// The number of bytes that a character takes in UTF-8.
pub open spec fn char_bytes(c: char) -> nat {
    let n = c as u32;
    if n < 0x80 {
        1
    } else if n < 0x800 {
        2
    } else if n < 0x10000 {
        3
    } else {
        4
    }
}

/// The number of bytes that a text takes in UTF-8.
pub open spec fn byte_len(s: Seq<char>) -> nat
    decreases s.len(),
{
    if s.len() == 0 {
        0
    } else {
        byte_len(s.drop_last()) + char_bytes(s.last())
    }
}

proof fn lemma_byte_len_prefix(s: Seq<char>, k: int)
    requires
        0 <= k <= s.len(),
    ensures
        byte_len(s.take(k)) <= byte_len(s),
    decreases s.len() - k,
{
    if k == s.len() {
        assert(s.take(k) == s);
    } else {
        lemma_byte_len_prefix(s.drop_last(), k);
        assert(s.drop_last().take(k) == s.take(k));
    }
}

/// Whether a text takes more than `limit` bytes in UTF-8.
fn exceeds(chars: &Vec<char>, limit: usize) -> (out: bool)
    ensures
        out == (byte_len(chars@) > limit),
{
    let mut total: usize = 0;
    let mut i: usize = 0;
    assert(chars@.take(0) == Seq::<char>::empty());
    while i < chars.len()
        invariant
            i <= chars.len(),
            total == byte_len(chars@.take(i as int)),
            total <= limit,
        decreases chars.len() - i,
    {
        let n: u32 = chars[i] as u32;
        let width: usize = if n < 0x80 {
            1
        } else if n < 0x800 {
            2
        } else if n < 0x10000 {
            3
        } else {
            4
        };
        proof {
            assert(chars@.take(i + 1).drop_last() == chars@.take(i as int));
            assert(chars@.take(i + 1).last() == chars@[i as int]);
        }
        if width > limit - total {
            proof {
                lemma_byte_len_prefix(chars@, i + 1);
            }
            return true;
        }
        total = total + width;
        i += 1;
    }
    assert(chars@.take(chars.len() as int) == chars@);
    false
}

fn complain(message: &str) -> (out: Result<(), String>)
    ensures
        out matches Err(text) && text@ == message@,
{
    Err(String::from_str(message))
}

impl Validate for RefineRequest {
    /// The content must hold more than white space and no more than
    /// [`MAX_CONTENT_BYTES`] bytes.
    open spec fn complaint(&self) -> Option<Seq<char>> {
        if is_blank(self.content@) {
            Some("Content must not be empty"@)
        } else if byte_len(self.content@) > MAX_CONTENT_BYTES {
            Some("Content is too large (max 100,000 characters)"@)
        } else {
            None
        }
    }

    fn validate(&self) -> (out: Result<(), String>) {
        let chars = chars_of(self.content.as_str());
        proof {
            lemma_trimmed(chars@);
        }
        if trim(&chars).len() == 0 {
            return complain("Content must not be empty");
        }
        if exceeds(&chars, MAX_CONTENT_BYTES) {
            return complain("Content is too large (max 100,000 characters)");
        }
        Ok(())
    }
}

impl Validate for TimeAllocation {
    /// No share may be negative, and the shares must add up to 100.
    open spec fn complaint(&self) -> Option<Seq<char>> {
        if self.meetings < 0 || self.unplanned < 0 || self.bugs < 0 || self.feature < 0
            || self.tech_debt < 0 {
            Some("Time allocation must be greater than 0"@)
        } else if self.meetings + self.unplanned + self.bugs + self.feature + self.tech_debt
            != 100 {
            Some("Time allocation must sum to 100"@)
        } else {
            None
        }
    }

    fn validate(&self) -> (out: Result<(), String>) {
        if self.meetings < 0 || self.unplanned < 0 || self.bugs < 0 || self.feature < 0
            || self.tech_debt < 0 {
            return complain("Time allocation must be greater than 0");
        }
        let total: i64 = self.meetings as i64 + self.unplanned as i64 + self.bugs as i64
            + self.feature as i64 + self.tech_debt as i64;
        if total != 100 {
            return complain("Time allocation must sum to 100");
        }
        Ok(())
    }
}

impl Validate for AnalysisResult {
    /// An analysis needs a summary, at least one issue, at least one
    /// leverage point and a statement of its confidence.
    open spec fn complaint(&self) -> Option<Seq<char>> {
        if self.executive_summary@.len() == 0 {
            Some("Analysis result must have an executive summary"@)
        } else if self.core_systemic_issues@.len() == 0 {
            Some("Analysis result must have at least one core systemic issue"@)
        } else if self.leverage_points@.len() == 0 {
            Some("Analysis result must have at least one leverage point"@)
        } else if self.analysis_confidence@.len() == 0 {
            Some("Analysis result must have analysis confidence"@)
        } else {
            None
        }
    }

    fn validate(&self) -> (out: Result<(), String>) {
        if self.executive_summary.as_str().is_empty() {
            return complain("Analysis result must have an executive summary");
        }
        if self.core_systemic_issues.len() == 0 {
            return complain("Analysis result must have at least one core systemic issue");
        }
        if self.leverage_points.len() == 0 {
            return complain("Analysis result must have at least one leverage point");
        }
        if self.analysis_confidence.as_str().is_empty() {
            return complain("Analysis result must have analysis confidence");
        }
        Ok(())
    }
}

/// Whether five shares add up to 100 percent, give or take one.
pub fn is_time_allocation_valid(
    meetings: i32,
    unplanned: i32,
    bugs: i32,
    feature: i32,
    tech_debt: i32,
) -> (out: bool)
    ensures
        out == (99 <= meetings + unplanned + bugs + feature + tech_debt <= 101),
{
    let total: i64 = meetings as i64 + unplanned as i64 + bugs as i64 + feature as i64
        + tech_debt as i64;
    99 <= total && total <= 101
}

} // verus!
