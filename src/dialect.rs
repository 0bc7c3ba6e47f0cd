//! Identifier rules that admit URLs and file paths as unquoted table names.
use vstd::prelude::*;
use vstd::string::*;

verus! {

pub open spec fn is_ascii_letter(c: char) -> bool {
    ('a' <= c && c <= 'z') || ('A' <= c && c <= 'Z')
}

pub open spec fn is_ascii_digit(c: char) -> bool {
    '0' <= c && c <= '9'
}

/// Characters that may begin an unquoted identifier.
pub open spec fn is_start_char(c: char) -> bool {
    is_ascii_letter(c) || c == '_' || c == '.'
}

/// Characters that may continue an unquoted identifier.
pub open spec fn is_part_char(c: char) -> bool {
    is_ascii_letter(c) || is_ascii_digit(c) || c == ':' || c == '<' || c == '>' || c == '/'
        || c == '?' || c == '&' || c == '=' || c == '_' || c == '.' || c == '-'
}

/// The characters a URL or a file path is written with in a query:
/// letters, digits and the reserved characters `: / ? & =` together with `. _ -`.
pub open spec fn is_locator_char(c: char) -> bool {
    is_ascii_letter(c) || is_ascii_digit(c) || c == ':' || c == '/' || c == '?' || c == '&'
        || c == '=' || c == '.' || c == '_' || c == '-'
}

/// The index of the first character at or after `i` that cannot continue an identifier.
pub open spec fn part_run_end(s: Seq<char>, i: nat) -> nat
    decreases s.len() - i,
{
    if i >= s.len() || !is_part_char(s[i as int]) {
        i
    } else {
        part_run_end(s, i + 1)
    }
}

/// How many leading characters of `s` one unquoted identifier token spans
/// (zero when `s` does not start with an identifier).
pub open spec fn identifier_prefix_len(s: Seq<char>) -> nat {
    if s.len() > 0 && is_start_char(s[0]) {
        part_run_end(s, 1)
    } else {
        0
    }
}

proof fn lemma_part_run_end_all(s: Seq<char>, i: nat)
    requires
        i <= s.len(),
        forall|k: int| i <= k < s.len() ==> is_part_char(#[trigger] s[k]),
    ensures
        part_run_end(s, i) == s.len(),
    decreases s.len() - i,
{
    if i < s.len() {
        lemma_part_run_end_all(s, i + 1);
    }
}

/// A locator made of letters, digits and the URL characters `: / ? & = . _ -`, and
/// starting with a letter, `_` or `.`, is read as one unquoted identifier token in full:
/// it needs no quotes.
pub proof fn lemma_locator_is_single_identifier(s: Seq<char>)
    requires
        s.len() > 0,
        is_start_char(s[0]),
        forall|k: int| 0 <= k < s.len() ==> is_locator_char(#[trigger] s[k]),
    ensures
        identifier_prefix_len(s) == s.len(),
{
    assert forall|k: int| 1 <= k < s.len() implies is_part_char(#[trigger] s[k]) by {
        assert(is_locator_char(s[k]));
    }
    lemma_part_run_end_all(s, 1);
}

/// The query dialect whose unquoted identifiers may be URLs or file paths.
#[derive(Debug, Default, Clone, Copy)]
pub struct OrinDialect;

impl OrinDialect {
    /// May `ch` begin an unquoted identifier: an ASCII letter, `_` or `.`.
    pub fn is_identifier_start(&self, ch: char) -> (r: bool)
        ensures
            r == is_start_char(ch),
    {
        ('a' <= ch && ch <= 'z') || ('A' <= ch && ch <= 'Z') || ch == '_' || ch == '.'
    }

    /// May `ch` continue an unquoted identifier: an ASCII letter or digit, or one of
    /// `: < > / ? & = _ . -`.
    pub fn is_identifier_part(&self, ch: char) -> (r: bool)
        ensures
            r == is_part_char(ch),
    {
        ('a' <= ch && ch <= 'z') || ('A' <= ch && ch <= 'Z') || ('0' <= ch && ch <= '9')
            || ch == ':' || ch == '<' || ch == '>' || ch == '/' || ch == '?' || ch == '&'
            || ch == '=' || ch == '_' || ch == '.' || ch == '-'
    }

    /// The number of leading characters of `s` that one unquoted identifier token takes:
    /// a start character followed by the longest run of continuation characters.
    pub fn identifier_len(&self, s: &str) -> (n: usize)
        ensures
            n == identifier_prefix_len(s@),
    {
        let len = s.unicode_len();
        if len == 0 || !self.is_identifier_start(s.get_char(0)) {
            return 0;
        }
        let mut i: usize = 1;
        while i < len && self.is_identifier_part(s.get_char(i))
            invariant
                len == s@.len(),
                1 <= i <= len,
                part_run_end(s@, 1) == part_run_end(s@, i as nat),
            decreases len - i,
        {
            i = i + 1;
        }
        i
    }

    /// Whether all of `s` is one unquoted identifier token.
    pub fn is_bare_identifier(&self, s: &str) -> (r: bool)
        ensures
            r == (s@.len() > 0 && identifier_prefix_len(s@) == s@.len()),
    {
        let n = self.identifier_len(s);
        n > 0 && n == s.unicode_len()
    }
}

/// A sample query whose table name is an HTTPS URL written without quotes.
pub fn example_sql() -> (r: String)
    ensures
        r@ == "select location name, total_cases, new_cases, total_deaths, new_deaths from "@
            + "https://raw.githubusercontent.com/owid/covid-19-data/master/public/data/latest/owid-covid-latest.csv"@
            + " where new_deaths > 500 order by new_cases desc limit 6 offset 5"@,
{
    let url = "https://raw.githubusercontent.com/owid/covid-19-data/master/public/data/latest/owid-covid-latest.csv";
    let mut sql = String::from_str(
        "select location name, total_cases, new_cases, total_deaths, new_deaths from ",
    );
    sql.append(url);
    sql.append(" where new_deaths > 500 order by new_cases desc limit 6 offset 5");
    sql
}

} // verus!
