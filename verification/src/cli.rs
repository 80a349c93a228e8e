//! Command-line vocabulary: the output formats a command can print in.

use vstd::prelude::*;

use crate::error::text;

verus! {

/// Output formats of the command-line interface.
#[derive(Debug, Clone, Copy, PartialEq, Eq, Structural)]
pub enum OutputFormat {
    Human,
    Json,
    Yaml,
    Table,
}

/// The code of `c` with an ASCII capital turned into its small letter.
pub open spec fn folded_code(c: char) -> int {
    if 'A' <= c && c <= 'Z' {
        (c as int) + 32
    } else {
        c as int
    }
}

/// `s` spells `word` when ASCII capitals count as small letters.
pub open spec fn spells(s: Seq<char>, word: Seq<char>) -> bool {
    s.len() == word.len() && forall|k: int| 0 <= k < s.len() ==> folded_code(#[trigger] s[k]) == word[k] as int
}

/// The format a name stands for, ignoring the case of ASCII letters.
pub open spec fn format_named(name: Seq<char>) -> Option<OutputFormat> {
    if spells(name, "human"@) {
        Some(OutputFormat::Human)
    } else if spells(name, "json"@) {
        Some(OutputFormat::Json)
    } else if spells(name, "yaml"@) {
        Some(OutputFormat::Yaml)
    } else if spells(name, "table"@) {
        Some(OutputFormat::Table)
    } else {
        None
    }
}

/// Whether `s` spells `word` ignoring the case of ASCII letters.
fn matches_word(s: &str, word: &str) -> (b: bool)
    ensures
        b == spells(s@, word@),
{
    let n = s.unicode_len();
    if n != word.unicode_len() {
        return false;
    }
    let mut i: usize = 0;
    while i < n
        invariant
            n == s@.len(),
            n == word@.len(),
            i <= n,
            forall|k: int| 0 <= k < i ==> folded_code(#[trigger] s@[k]) == word@[k] as int,
        decreases n - i,
    {
        let c = s.get_char(i);
        let w = word.get_char(i);
        let code: u32 = if 'A' <= c && c <= 'Z' {
            (c as u32) + 32
        } else {
            c as u32
        };
        if code != (w as u32) {
            assert(folded_code(s@[i as int]) != word@[i as int] as int);
            return false;
        }
        i = i + 1;
    }
    true
}

/// Parses an output format name, ignoring case.
pub fn parse_output_format(s: &str) -> (r: Result<OutputFormat, String>)
    ensures
        match format_named(s@) {
            Some(f) => r == Ok::<OutputFormat, String>(f),
            None => r matches Err(m) && m@ == "Invalid output format: "@ + s@,
        },
{
    proof {
        reveal_strlit("human");
        reveal_strlit("json");
        reveal_strlit("yaml");
        reveal_strlit("table");
    }
    if matches_word(s, "human") {
        Ok(OutputFormat::Human)
    } else if matches_word(s, "json") {
        Ok(OutputFormat::Json)
    } else if matches_word(s, "yaml") {
        Ok(OutputFormat::Yaml)
    } else if matches_word(s, "table") {
        Ok(OutputFormat::Table)
    } else {
        Err(text("Invalid output format: ").concat(s))
    }
}

impl std::str::FromStr for OutputFormat {
    type Err = String;

    fn from_str(s: &str) -> (r: Result<OutputFormat, String>)
        ensures
            match format_named(s@) {
                Some(f) => r == Ok::<OutputFormat, String>(f),
                None => r matches Err(m) && m@ == "Invalid output format: "@ + s@,
            },
    {
        parse_output_format(s)
    }
}

} // verus!
