use vstd::prelude::*;

use crate::markov::str_eq;
use crate::text::{chars_of, trim_bounds, trimmed};

verus! {

/// The shell function `o`, for bash and zsh: it asks `odds query` where to
/// go and changes to it (or runs `cd -` for `o -`).
pub const BASH_ZSH_SCRIPT: &'static str = r#"
o() {
    local result
    result=$(command odds query "$@")
    if [ -n "$result" ]; then
        cd "$result"
    elif [ "$#" -eq 1 ] && [ "$1" = "-" ]; then
        cd -
    fi
}
"#;

/// The bash hook that registers every directory change.
pub const BASH_EXTRA: &'static str = r#"
_odds_register() {
    if [ "$PWD" != "$_ODDS_LAST_PWD" ]; then
        (command odds register --pwd "$PWD" &>/dev/null &)
        _ODDS_LAST_PWD="$PWD"
    fi
}
PROMPT_COMMAND="_odds_register;${PROMPT_COMMAND}"
"#;

/// The zsh hook that registers every directory change.
pub const ZSH_EXTRA: &'static str = r#"
chpwd() {
    (command odds register --pwd "$PWD" &>/dev/null &)
}
"#;

/// The subcommands of the program.
pub enum Commands {
    /// Print the shell integration for a shell.
    Init { shell: String },
    /// Seed the history from the shell's history file.
    Seed,
    /// Register a directory change (called by the shell hook).
    Register { pwd: String },
    /// Find where to jump for some keywords.
    Query { tokens: Vec<String> },
    /// Forget history and session.
    Reset,
    /// Explain where a query would jump.
    Where { tokens: Vec<String> },
}

/// The parsed command line.
pub struct Cli {
    pub command: Option<Commands>,
}

/// What a query asks for before any search.
pub enum QueryPlan {
    /// No keywords: go home, as `cd` does.
    Home,
    /// The single keyword `-`: go back to the previous directory.
    Previous,
    /// Search for the keywords.
    Search,
}

impl Cli {
    /// The shell integration for `shell_type`: the `o` function and the
    /// hook of bash or zsh; `None` for any other shell.
    pub fn init_script(shell_type: &str) -> (r: Option<String>)
        ensures
            shell_type@ == "bash"@ ==> (r matches Some(s) && s@ == BASH_ZSH_SCRIPT@ + BASH_EXTRA@),
            shell_type@ == "zsh"@ ==> (r matches Some(s) && s@ == BASH_ZSH_SCRIPT@ + ZSH_EXTRA@),
            shell_type@ != "bash"@ && shell_type@ != "zsh"@ ==> r is None,
    {
        proof {
            reveal_strlit("bash");
            reveal_strlit("zsh");
            assert("bash"@.len() != "zsh"@.len());
        }
        if str_eq(shell_type, "bash") {
            let mut s = String::from_str(BASH_ZSH_SCRIPT);
            s.append(BASH_EXTRA);
            Some(s)
        } else if str_eq(shell_type, "zsh") {
            let mut s = String::from_str(BASH_ZSH_SCRIPT);
            s.append(ZSH_EXTRA);
            Some(s)
        } else {
            None
        }
    }
}

/// What the query keywords ask for: home with none, the previous directory
/// for the single keyword `-`, a search otherwise.
pub fn plan_query(tokens: &[String]) -> (r: QueryPlan)
    ensures
        tokens@.len() == 0 ==> r is Home,
        tokens@.len() == 1 && tokens@[0]@ == "-"@ ==> r is Previous,
        tokens@.len() > 1 || (tokens@.len() == 1 && tokens@[0]@ != "-"@) ==> r is Search,
{
    if tokens.len() == 0 {
        QueryPlan::Home
    } else if tokens.len() == 1 && str_eq(tokens[0].as_str(), "-") {
        QueryPlan::Previous
    } else {
        QueryPlan::Search
    }
}

/// The 0-based index of the candidate the user chose by its 1-based number
/// `choice` out of `count`; `None` for 0 or a number past the last.
pub fn manual_index(count: usize, choice: usize) -> (r: Option<usize>)
    ensures
        r == if choice == 0 || choice > count { None } else { Some((choice - 1) as usize) },
{
    if choice == 0 || choice > count {
        None
    } else {
        Some(choice - 1)
    }
}

/// Whether `c` is an ASCII decimal digit.
pub open spec fn is_digit(c: char) -> bool {
    '0' <= c <= '9'
}

/// The number that the decimal digits `s` write.
pub open spec fn digits_value(s: Seq<char>) -> nat
    decreases s.len(),
{
    if s.len() == 0 {
        0
    } else {
        digits_value(s.drop_last()) * 10 + ((s.last() as u32) - ('0' as u32)) as nat
    }
}

/// The value of the digits `d`, when `d` is one or more decimal digits whose
/// value fits in a `usize`.
pub open spec fn parsed_digits(d: Seq<char>) -> Option<nat> {
    if d.len() > 0 && (forall|i: int| 0 <= i < d.len() ==> is_digit(#[trigger] d[i])) && digits_value(d)
        <= usize::MAX {
        Some(digits_value(d))
    } else {
        None
    }
}

/// What `usize::from_str` makes of `s`: an optional `+`, then one or more
/// decimal digits, whose value must fit in a `usize`.
pub open spec fn parsed_usize(s: Seq<char>) -> Option<nat> {
    parsed_digits(if s.len() > 0 && s[0] == '+' { s.drop_first() } else { s })
}

proof fn lemma_digits_grow(s: Seq<char>, i: int)
    requires
        0 <= i <= s.len(),
        forall|j: int| 0 <= j < s.len() ==> is_digit(#[trigger] s[j]),
    ensures
        digits_value(s.subrange(0, i)) <= digits_value(s),
    decreases s.len() - i,
{
    if i < s.len() {
        lemma_digits_grow(s, i + 1);
        let t = s.subrange(0, i + 1);
        assert(t.drop_last() =~= s.subrange(0, i));
    } else {
        assert(s.subrange(0, i) =~= s);
    }
}

fn parse_digits(v: &Vec<char>, start: usize, hi: usize) -> (r: Option<usize>)
    requires
        start <= hi <= v@.len(),
    ensures
        match r {
            Some(n) => parsed_digits(v@.subrange(start as int, hi as int)) == Some(n as nat),
            None => parsed_digits(v@.subrange(start as int, hi as int)) is None,
        },
{
    let ghost d = v@.subrange(start as int, hi as int);
    if start >= hi {
        return None;
    }
    let mut value: usize = 0;
    let mut i = start;
    while i < hi
        invariant
            start <= i <= hi <= v@.len(),
            d == v@.subrange(start as int, hi as int),
            d.len() > 0,
            forall|j: int| start <= j < i ==> is_digit(#[trigger] v@[j]),
            value as nat == digits_value(v@.subrange(start as int, i as int)),
        decreases hi - i,
    {
        let c = v[i];
        if !('0' <= c && c <= '9') {
            proof {
                assert(d[i - start] == v@[i as int]);
                assert(!is_digit(d[i - start]));
            }
            return None;
        }
        let digit = (c as u32 - '0' as u32) as usize;
        proof {
            assert(v@.subrange(start as int, i + 1).drop_last() =~= v@.subrange(start as int, i as int));
        }
        if value > (usize::MAX - digit) / 10 {
            proof {
                assert(digits_value(v@.subrange(start as int, i + 1)) > usize::MAX) by (nonlinear_arith)
                    requires
                        digits_value(v@.subrange(start as int, i + 1)) == value * 10 + digit,
                        value > (usize::MAX - digit) / 10,
                        digit <= 9,
                ;
                if forall|j: int| 0 <= j < d.len() ==> is_digit(#[trigger] d[j]) {
                    lemma_digits_grow(d, i + 1 - start);
                    assert(d.subrange(0, i + 1 - start) =~= v@.subrange(start as int, i + 1));
                }
            }
            return None;
        }
        proof {
            assert(value * 10 + digit <= usize::MAX) by (nonlinear_arith)
                requires
                    value <= (usize::MAX - digit) / 10,
                    digit <= 9,
            ;
        }
        value = value * 10 + digit;
        i = i + 1;
    }
    proof {
        assert(v@.subrange(start as int, i as int) =~= d);
        assert forall|j: int| 0 <= j < d.len() implies is_digit(#[trigger] d[j]) by {
            assert(d[j] == v@[start + j]);
        }
    }
    Some(value)
}

/// The number the user typed at the picker: the input without surrounding
/// white space, read as `usize::from_str` reads it; `None` when it is not a
/// number that fits.
pub fn parse_choice(input: &str) -> (r: Option<usize>)
    ensures
        match r {
            Some(n) => parsed_usize(trimmed(input@)) == Some(n as nat),
            None => parsed_usize(trimmed(input@)) is None,
        },
{
    let v = chars_of(input);
    let (lo, hi) = trim_bounds(&v, 0, v.len());
    proof {
        assert(v@.subrange(0, v@.len() as int) =~= v@);
    }
    let ghost t = v@.subrange(lo as int, hi as int);
    let mut start = lo;
    if lo < hi && v[lo] == '+' {
        start = lo + 1;
    }
    proof {
        if lo < hi && v@[lo as int] == '+' {
            assert(v@.subrange(start as int, hi as int) =~= t.drop_first());
        } else {
            assert(v@.subrange(start as int, hi as int) =~= t);
        }
    }
    parse_digits(&v, start, hi)
}

} // verus!
