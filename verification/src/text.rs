use vstd::prelude::*;
use vstd::std_specs::iter::IteratorSpec;

verus! {

/// The character that writes the decimal digit `d`.
pub open spec fn digit_char(d: nat) -> char {
    if d == 0 { '0' }
    else if d == 1 { '1' }
    else if d == 2 { '2' }
    else if d == 3 { '3' }
    else if d == 4 { '4' }
    else if d == 5 { '5' }
    else if d == 6 { '6' }
    else if d == 7 { '7' }
    else if d == 8 { '8' }
    else { '9' }
}

/// The decimal notation of `n`, most significant digit first, no leading zeros.
pub open spec fn decimal(n: nat) -> Seq<char>
    decreases n,
{
    if n < 10 {
        seq![digit_char(n)]
    } else {
        decimal(n / 10).push(digit_char(n % 10))
    }
}

fn digit_str(d: u64) -> (s: &'static str)
    requires
        d < 10,
    ensures
        s@ == seq![digit_char(d as nat)],
{
    if d == 0 {
        proof { reveal_strlit("0"); }
        "0"
    } else if d == 1 {
        proof { reveal_strlit("1"); }
        "1"
    } else if d == 2 {
        proof { reveal_strlit("2"); }
        "2"
    } else if d == 3 {
        proof { reveal_strlit("3"); }
        "3"
    } else if d == 4 {
        proof { reveal_strlit("4"); }
        "4"
    } else if d == 5 {
        proof { reveal_strlit("5"); }
        "5"
    } else if d == 6 {
        proof { reveal_strlit("6"); }
        "6"
    } else if d == 7 {
        proof { reveal_strlit("7"); }
        "7"
    } else if d == 8 {
        proof { reveal_strlit("8"); }
        "8"
    } else {
        proof { reveal_strlit("9"); }
        "9"
    }
}

/// Appends the decimal notation of `n` to `out`.
pub fn push_decimal(out: &mut String, n: u64)
    ensures
        final(out)@ == old(out)@ + decimal(n as nat),
    decreases n,
{
    if n >= 10 {
        push_decimal(out, n / 10);
    }
    out.append(digit_str(n % 10));
}

/// The decimal notation of `n` as a new string.
pub fn decimal_string(n: u64) -> (s: String)
    ensures
        s@ == decimal(n as nat),
{
    let mut s = String::new();
    push_decimal(&mut s, n);
    proof { assert(s@ =~= decimal(n as nat)); }
    s
}

/// How long ago, in words: "just now" under a minute, then whole minutes
/// under an hour, whole hours under a day, and whole days.
pub open spec fn duration_text(secs: nat) -> Seq<char> {
    if secs < 60 {
        "just now"@
    } else if secs < 3600 {
        decimal(secs / 60) + " minutes ago"@
    } else if secs < 86400 {
        decimal(secs / 3600) + " hours ago"@
    } else {
        decimal(secs / 86400) + " days ago"@
    }
}

/// Says how long ago `secs` seconds were, as `duration_text` does.
pub fn format_duration(secs: u64) -> (r: String)
    ensures
        r@ == duration_text(secs as nat),
{
    if secs < 60 {
        String::from_str("just now")
    } else if secs < 3600 {
        let mut s = decimal_string(secs / 60);
        s.append(" minutes ago");
        s
    } else if secs < 86400 {
        let mut s = decimal_string(secs / 3600);
        s.append(" hours ago");
        s
    } else {
        let mut s = decimal_string(secs / 86400);
        s.append(" days ago");
        s
    }
}

/// The characters of `s`, in order.
pub fn chars_of(s: &str) -> (v: Vec<char>)
    ensures
        v@ == s@,
{
    broadcast use vstd::string::group_string_axioms;

    let mut v: Vec<char> = Vec::new();
    for c in iter: s.chars()
        invariant
            v@.len() == iter.index(),
            forall|j: int| 0 <= j < v@.len() ==> v@[j] == iter.seq()[j],
    {
        v.push(c);
    }
    proof {
        assert(v@ =~= s@);
    }
    v
}

/// Whether `c` is white space in the sense of Unicode's White_Space
/// property, the set that `char::is_whitespace` and `str::trim` use.
pub open spec fn is_space(c: char) -> bool {
    let u = c as u32;
    ||| 0x09 <= u <= 0x0d
    ||| u == 0x20
    ||| u == 0x85
    ||| u == 0xa0
    ||| u == 0x1680
    ||| 0x2000 <= u <= 0x200a
    ||| u == 0x2028
    ||| u == 0x2029
    ||| u == 0x202f
    ||| u == 0x205f
    ||| u == 0x3000
}

/// Whether `c` is white space (Unicode White_Space).
pub fn char_is_space(c: char) -> (r: bool)
    ensures
        r == is_space(c),
{
    let u = c as u32;
    (0x09 <= u && u <= 0x0d) || u == 0x20 || u == 0x85 || u == 0xa0 || u == 0x1680 || (0x2000 <= u
        && u <= 0x200a) || u == 0x2028 || u == 0x2029 || u == 0x202f || u == 0x205f || u == 0x3000
}

/// The number of white-space characters at the start of `s`.
pub open spec fn lead(s: Seq<char>) -> nat
    decreases s.len(),
{
    if s.len() > 0 && is_space(s[0]) {
        1 + lead(s.drop_first())
    } else {
        0
    }
}

/// The number of white-space characters at the end of `s`.
pub open spec fn trail(s: Seq<char>) -> nat
    decreases s.len(),
{
    if s.len() > 0 && is_space(s.last()) {
        1 + trail(s.drop_last())
    } else {
        0
    }
}

/// `s` without its leading and trailing white space.
pub open spec fn trimmed(s: Seq<char>) -> Seq<char> {
    let t = s.subrange(lead(s) as int, s.len() as int);
    t.subrange(0, t.len() - trail(t))
}

proof fn lemma_lead(s: Seq<char>, i: int)
    requires
        0 <= i <= s.len(),
        forall|j: int| 0 <= j < i ==> is_space(#[trigger] s[j]),
        i == s.len() || !is_space(s[i]),
    ensures
        lead(s) == i,
    decreases i,
{
    if i > 0 {
        let d = s.drop_first();
        assert forall|j: int| 0 <= j < i - 1 implies is_space(#[trigger] d[j]) by {
            assert(d[j] == s[j + 1]);
        }
        if i < s.len() {
            assert(d[i - 1] == s[i]);
        }
        lemma_lead(d, i - 1);
    }
}

proof fn lemma_trail(t: Seq<char>, m: int)
    requires
        0 <= m <= t.len(),
        forall|j: int| m <= j < t.len() ==> is_space(#[trigger] t[j]),
        m == 0 || !is_space(t[m - 1]),
    ensures
        trail(t) == t.len() - m,
    decreases t.len() - m,
{
    if m < t.len() {
        let d = t.drop_last();
        assert forall|j: int| m <= j < d.len() implies is_space(#[trigger] d[j]) by {
            assert(d[j] == t[j]);
        }
        if m > 0 {
            assert(d[m - 1] == t[m - 1]);
        }
        assert(is_space(t[t.len() - 1]));
        lemma_trail(d, m);
    } else {
        if t.len() > 0 {
            assert(!is_space(t.last()));
        }
    }
}

/// The bounds of `v[from..to]` without its leading and trailing white space.
pub fn trim_bounds(v: &Vec<char>, from: usize, to: usize) -> (r: (usize, usize))
    requires
        from <= to <= v@.len(),
    ensures
        from <= r.0 <= r.1 <= to,
        v@.subrange(r.0 as int, r.1 as int) == trimmed(v@.subrange(from as int, to as int)),
{
    let mut lo = from;
    while lo < to && char_is_space(v[lo])
        invariant
            from <= lo <= to <= v@.len(),
            forall|j: int| from <= j < lo ==> is_space(#[trigger] v@[j]),
        decreases to - lo,
    {
        lo = lo + 1;
    }
    let mut hi = to;
    while hi > lo && char_is_space(v[hi - 1])
        invariant
            from <= lo <= hi <= to <= v@.len(),
            forall|j: int| hi <= j < to ==> is_space(#[trigger] v@[j]),
        decreases hi - lo,
    {
        hi = hi - 1;
    }
    proof {
        let w = v@.subrange(from as int, to as int);
        assert forall|j: int| 0 <= j < lo - from implies is_space(#[trigger] w[j]) by {
            assert(w[j] == v@[from + j]);
        }
        if lo < to {
            assert(w[lo - from] == v@[lo as int]);
        }
        lemma_lead(w, lo - from);
        let t = w.subrange(lead(w) as int, w.len() as int);
        assert(t =~= v@.subrange(lo as int, to as int));
        assert forall|j: int| hi - lo <= j < t.len() implies is_space(#[trigger] t[j]) by {
            assert(t[j] == v@[lo + j]);
        }
        if hi > lo {
            assert(t[hi - lo - 1] == v@[hi - 1]);
        }
        lemma_trail(t, hi - lo);
        assert(v@.subrange(lo as int, hi as int) =~= t.subrange(0, t.len() - trail(t)));
    }
    (lo, hi)
}

/// `s` without its leading and trailing white space (as `str::trim`).
pub fn trim(s: &str) -> (r: String)
    ensures
        r@ == trimmed(s@),
{
    let v = chars_of(s);
    let (lo, hi) = trim_bounds(&v, 0, v.len());
    proof {
        assert(v@.subrange(0, v@.len() as int) =~= v@);
    }
    String::from_str(s.substring_char(lo, hi))
}

} // verus!
