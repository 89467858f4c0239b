use vstd::prelude::*;

verus! {

/// The longest n-gram the chain records: a key holds up to `MARKOV_N - 1`
/// context directories followed by the directory the move starts from.
pub const MARKOV_N: usize = 4;

/// One recorded transition: after the directories of `key` (the context
/// directories in the order the caller gave them, the origin last), the user
/// went to `to`, `count` times.
pub struct MarkovEntry {
    pub key: Vec<String>,
    pub to: String,
    pub count: usize,
}

/// An n-gram Markov chain over directory changes. Each entry stands for one
/// distinct (key, destination) pair.
pub struct Markov {
    chain: Vec<MarkovEntry>,
}

/// The character sequences of a list of strings.
pub open spec fn strings_view(v: Seq<String>) -> Seq<Seq<char>> {
    v.map_values(|s: String| s@)
}

/// The character sequences of a list of string slices.
pub open spec fn strs_view(v: Seq<&str>) -> Seq<Seq<char>> {
    v.map_values(|s: &str| s@)
}

/// The key of the `n`-gram that ends in `from`: the last `n - 1` context
/// directories (all of them when there are fewer) followed by `from`.
pub open spec fn context_key(ctx: Seq<Seq<char>>, from: Seq<char>, n: nat) -> Seq<Seq<char>> {
    let take: int = if (n as int) - 1 < ctx.len() { (n as int) - 1 } else { ctx.len() as int };
    ctx.subrange(ctx.len() - take, ctx.len() as int).push(from)
}

/// `k` is one of the keys that a move from `from` with context `ctx` records:
/// an n-gram for some `1 <= n <= MARKOV_N` for which the context has the
/// `n - 1` directories it needs.
pub open spec fn registered_key(ctx: Seq<Seq<char>>, from: Seq<char>, k: Seq<Seq<char>>) -> bool {
    &&& 1 <= k.len() <= MARKOV_N
    &&& k.len() - 1 <= ctx.len()
    &&& k == context_key(ctx, from, k.len())
}

/// `m1` is `m0` with one move `from` -> `to` counted, after context `ctx`:
/// one more under every key that the move registers (none when `from` and
/// `to` are the same), every other count as it was.
pub open spec fn move_counted(m0: Markov, m1: Markov, ctx: Seq<Seq<char>>, from: Seq<char>, to: Seq<char>) -> bool {
    &&& forall|k: Seq<Seq<char>>, t: Seq<char>|
        #[trigger] m1.count(k, t) == m0.count(k, t) + if from != to && t == to && registered_key(ctx, from, k) {
            1nat
        } else {
            0nat
        }
    &&& forall|k: Seq<Seq<char>>|
        #[trigger] m1.total(k) == m0.total(k) + if from != to && registered_key(ctx, from, k) {
            1nat
        } else {
            0nat
        }
}

impl MarkovEntry {
    pub open spec fn key_view(&self) -> Seq<Seq<char>> {
        strings_view(self.key@)
    }

    pub open spec fn is_pair(&self, k: Seq<Seq<char>>, t: Seq<char>) -> bool {
        self.key_view() == k && self.to@ == t
    }
}

/// No two entries of `s` record the same (key, destination) pair.
pub open spec fn unique_pairs(s: Seq<MarkovEntry>) -> bool {
    forall|i: int, j: int|
        0 <= i < j < s.len() ==> !(#[trigger] s[i]).is_pair((#[trigger] s[j]).key_view(), s[j].to@)
}

/// With pairs unique, a pair's count is one entry's count at most.
proof fn lemma_count_unique(s: Seq<MarkovEntry>, k: Seq<Seq<char>>, t: Seq<char>)
    requires
        unique_pairs(s),
    ensures
        count_in(s, k, t) <= usize::MAX,
    decreases s.len(),
{
    if s.len() > 0 {
        let d = s.drop_last();
        assert(unique_pairs(d)) by {
            assert forall|i: int, j: int| 0 <= i < j < d.len() implies !(#[trigger] d[i]).is_pair(
                (#[trigger] d[j]).key_view(),
                d[j].to@,
            ) by {
                assert(d[i] == s[i] && d[j] == s[j]);
            }
        }
        if s.last().is_pair(k, t) {
            assert forall|i: int| 0 <= i < d.len() implies !(#[trigger] d[i]).is_pair(k, t) by {
                assert(d[i] == s[i]);
                assert(!s[i].is_pair(s[s.len() - 1].key_view(), s[s.len() - 1].to@));
            }
            lemma_count_absent(d, k, t);
        } else {
            lemma_count_unique(d, k, t);
        }
    }
}

/// The (key, destination) pair an entry records.
pub open spec fn pair_of(e: MarkovEntry) -> (Seq<Seq<char>>, Seq<char>) {
    (e.key_view(), e.to@)
}

/// The set of (key, destination) pairs recorded in `s`.
pub open spec fn pairs_of(s: Seq<MarkovEntry>) -> Set<(Seq<Seq<char>>, Seq<char>)> {
    s.map_values(|e: MarkovEntry| pair_of(e)).to_set()
}

/// The pairs that counting a move `from` -> `to` after context `ctx` records.
pub open spec fn move_pairs(ctx: Seq<Seq<char>>, from: Seq<char>, to: Seq<char>) -> Set<(Seq<Seq<char>>, Seq<char>)> {
    Set::new(|p: (Seq<Seq<char>>, Seq<char>)| from != to && p.1 == to && registered_key(ctx, from, p.0))
}

/// With pairs unique, there are as many distinct pairs as entries.
proof fn lemma_pairs_len(s: Seq<MarkovEntry>)
    requires
        unique_pairs(s),
    ensures
        pairs_of(s).len() == s.len(),
{
    let m = s.map_values(|e: MarkovEntry| pair_of(e));
    assert forall|i: int, j: int| 0 <= i < m.len() && 0 <= j < m.len() && i != j implies m[i] != m[j] by {
        if i < j {
            assert(!s[i].is_pair(s[j].key_view(), s[j].to@));
        } else {
            assert(!s[j].is_pair(s[i].key_view(), s[i].to@));
        }
    }
    assert(m.no_duplicates());
    m.unique_seq_to_set();
}

/// The count recorded for the pair (`k`, `t`) in `s`.
pub open spec fn count_in(s: Seq<MarkovEntry>, k: Seq<Seq<char>>, t: Seq<char>) -> nat
    decreases s.len(),
{
    if s.len() == 0 {
        0
    } else {
        count_in(s.drop_last(), k, t) + if s.last().is_pair(k, t) {
            s.last().count as nat
        } else {
            0
        }
    }
}

/// The sum of the counts recorded after key `k`, over all destinations.
pub open spec fn total_in(s: Seq<MarkovEntry>, k: Seq<Seq<char>>) -> nat
    decreases s.len(),
{
    if s.len() == 0 {
        0
    } else {
        total_in(s.drop_last(), k) + if s.last().key_view() == k {
            s.last().count as nat
        } else {
            0
        }
    }
}

/// The (count, total) of the move `from` -> `to` under the longest n-gram, from
/// `n` down to 1, whose key has been followed at all; (0, 0) when none has.
pub open spec fn lookup_from(
    s: Seq<MarkovEntry>,
    ctx: Seq<Seq<char>>,
    from: Seq<char>,
    to: Seq<char>,
    n: nat,
) -> (nat, nat)
    decreases n,
{
    if n == 0 {
        (0, 0)
    } else {
        let k = context_key(ctx, from, n);
        if total_in(s, k) > 0 {
            (count_in(s, k, to), total_in(s, k))
        } else {
            lookup_from(s, ctx, from, to, (n - 1) as nat)
        }
    }
}

proof fn lemma_count_update(s: Seq<MarkovEntry>, i: int, e: MarkovEntry, k: Seq<Seq<char>>, t: Seq<char>)
    requires
        0 <= i < s.len(),
        e.key_view() == s[i].key_view(),
        e.to@ == s[i].to@,
    ensures
        count_in(s.update(i, e), k, t) as int == count_in(s, k, t) as int
            - (if s[i].is_pair(k, t) { s[i].count as int } else { 0 })
            + (if e.is_pair(k, t) { e.count as int } else { 0 }),
        total_in(s.update(i, e), k) as int == total_in(s, k) as int
            - (if s[i].key_view() == k { s[i].count as int } else { 0 })
            + (if e.key_view() == k { e.count as int } else { 0 }),
    decreases s.len(),
{
    let u = s.update(i, e);
    if i == s.len() - 1 {
        assert(u.drop_last() =~= s.drop_last());
    } else {
        assert(u.drop_last() =~= s.drop_last().update(i, e));
        lemma_count_update(s.drop_last(), i, e, k, t);
    }
}

proof fn lemma_count_push(s: Seq<MarkovEntry>, e: MarkovEntry, k: Seq<Seq<char>>, t: Seq<char>)
    ensures
        count_in(s.push(e), k, t) == count_in(s, k, t) + (if e.is_pair(k, t) { e.count as nat } else { 0 }),
        total_in(s.push(e), k) == total_in(s, k) + (if e.key_view() == k { e.count as nat } else { 0 }),
{
    assert(s.push(e).drop_last() =~= s);
}

/// With no entry for the pair, its count is zero.
proof fn lemma_count_absent(s: Seq<MarkovEntry>, k: Seq<Seq<char>>, t: Seq<char>)
    requires
        forall|i: int| 0 <= i < s.len() ==> !(#[trigger] s[i]).is_pair(k, t),
    ensures
        count_in(s, k, t) == 0,
    decreases s.len(),
{
    if s.len() > 0 {
        lemma_count_absent(s.drop_last(), k, t);
    }
}

/// With pairs unique, a pair's count is the count of its entry.
proof fn lemma_count_is_entry(s: Seq<MarkovEntry>, i: int, k: Seq<Seq<char>>, t: Seq<char>)
    requires
        unique_pairs(s),
        0 <= i < s.len(),
        s[i].is_pair(k, t),
    ensures
        count_in(s, k, t) == s[i].count,
    decreases s.len(),
{
    let d = s.drop_last();
    assert(unique_pairs(d)) by {
        assert forall|a: int, b: int| 0 <= a < b < d.len() implies !(#[trigger] d[a]).is_pair(
            (#[trigger] d[b]).key_view(),
            d[b].to@,
        ) by {
            assert(d[a] == s[a] && d[b] == s[b]);
        }
    }
    if i == s.len() - 1 {
        assert forall|j: int| 0 <= j < d.len() implies !(#[trigger] d[j]).is_pair(k, t) by {
            assert(d[j] == s[j]);
            assert(!s[j].is_pair(s[i].key_view(), s[i].to@));
        }
        lemma_count_absent(d, k, t);
    } else {
        assert(d[i] == s[i]);
        assert(!s[i].is_pair(s[s.len() - 1].key_view(), s[s.len() - 1].to@));
        lemma_count_is_entry(d, i, k, t);
    }
}

/// A pair's count never exceeds its key's total.
pub proof fn lemma_count_le_total(s: Seq<MarkovEntry>, k: Seq<Seq<char>>, t: Seq<char>)
    ensures
        count_in(s, k, t) <= total_in(s, k),
    decreases s.len(),
{
    if s.len() > 0 {
        lemma_count_le_total(s.drop_last(), k, t);
    }
}

proof fn lemma_total_bound(s: Seq<MarkovEntry>, k: Seq<Seq<char>>)
    ensures
        total_in(s, k) <= s.len() * (usize::MAX as nat),
    decreases s.len(),
{
    if s.len() > 0 {
        lemma_total_bound(s.drop_last(), k);
        assert((s.len() - 1) * (usize::MAX as nat) + usize::MAX as nat == s.len() * (usize::MAX as nat))
            by (nonlinear_arith);
    }
}

/// Two lists of strings hold the same text, element by element.
pub fn same_strings(a: &Vec<String>, b: &Vec<String>) -> (r: bool)
    ensures
        r == (strings_view(a@) == strings_view(b@)),
{
    if a.len() != b.len() {
        proof {
            assert(strings_view(a@).len() != strings_view(b@).len());
        }
        return false;
    }
    let mut i: usize = 0;
    while i < a.len()
        invariant
            a.len() == b.len(),
            i <= a.len(),
            forall|j: int| 0 <= j < i ==> a@[j]@ == b@[j]@,
        decreases a.len() - i,
    {
        if a[i] != b[i] {
            proof {
                assert(strings_view(a@)[i as int] != strings_view(b@)[i as int]);
            }
            return false;
        }
        i = i + 1;
    }
    proof {
        assert(strings_view(a@) =~= strings_view(b@));
    }
    true
}

fn same_strs(a: &Vec<String>, b: &[&str]) -> (r: bool)
    ensures
        r == (strings_view(a@) == strs_view(b@)),
{
    if a.len() != b.len() {
        proof {
            assert(strings_view(a@).len() != strs_view(b@).len());
        }
        return false;
    }
    let mut i: usize = 0;
    while i < a.len()
        invariant
            a.len() == b@.len(),
            i <= a.len(),
            forall|j: int| 0 <= j < i ==> a@[j]@ == b@[j]@,
        decreases a.len() - i,
    {
        let s: &str = b[i];
        if !str_eq(a[i].as_str(), s) {
            proof {
                assert(strings_view(a@)[i as int] != strs_view(b@)[i as int]);
            }
            return false;
        }
        i = i + 1;
    }
    proof {
        assert(strings_view(a@) =~= strs_view(b@));
    }
    true
}

/// Whether two string slices hold the same characters.
pub fn str_eq(a: &str, b: &str) -> (r: bool)
    ensures
        r == (a@ == b@),
{
    let la = a.unicode_len();
    let lb = b.unicode_len();
    if la != lb {
        return false;
    }
    let mut i: usize = 0;
    while i < la
        invariant
            la == a@.len(),
            lb == b@.len(),
            la == lb,
            i <= la,
            forall|j: int| 0 <= j < i ==> a@[j] == b@[j],
        decreases la - i,
    {
        if a.get_char(i) != b.get_char(i) {
            return false;
        }
        i = i + 1;
    }
    proof {
        assert(a@ =~= b@);
    }
    true
}

/// A fresh string with the text of `s`.
pub fn owned(s: &str) -> (r: String)
    ensures
        r@ == s@,
{
    String::from_str(s)
}

fn copy_string(s: &String) -> (r: String)
    ensures
        r@ == s@,
{
    String::from_str(s.as_str())
}

impl Markov {
    /// The chain's entries, one per recorded (key, destination) pair.
    pub closed spec fn entries(&self) -> Seq<MarkovEntry> {
        self.chain@
    }

    /// No two entries record the same (key, destination) pair.
    pub open spec fn wf(&self) -> bool {
        unique_pairs(self.entries())
    }

    /// The move `from` -> `to` after context `ctx` can be counted: none of
    /// the counts it adds one to is at the top of its range.
    pub open spec fn can_count(&self, ctx: Seq<Seq<char>>, from: Seq<char>, to: Seq<char>) -> bool {
        forall|k: Seq<Seq<char>>| from != to && registered_key(ctx, from, k) ==> #[trigger] self.count(k, to) < usize::MAX
    }

    /// The distinct (key, destination) pairs recorded.
    pub open spec fn pairs(&self) -> Set<(Seq<Seq<char>>, Seq<char>)> {
        pairs_of(self.entries())
    }

    /// How often `t` followed key `k`.
    pub open spec fn count(&self, k: Seq<Seq<char>>, t: Seq<char>) -> nat {
        count_in(self.entries(), k, t)
    }

    /// How often key `k` was followed by any move.
    pub open spec fn total(&self, k: Seq<Seq<char>>) -> nat {
        total_in(self.entries(), k)
    }

    /// The (count, total) that `probability_parts` reports.
    pub open spec fn odds(&self, ctx: Seq<Seq<char>>, from: Seq<char>, to: Seq<char>) -> (nat, nat) {
        lookup_from(self.entries(), ctx, from, to, MARKOV_N as nat)
    }

    /// A chain made of `entries`, as they were saved; no pair may repeat.
    pub fn restore(entries: Vec<MarkovEntry>) -> (m: Self)
        requires
            unique_pairs(entries@),
        ensures
            m.entries() == entries@,
            m.wf(),
    {
        Markov { chain: entries }
    }

    /// The chain's entries, in the order they were first recorded.
    pub fn as_slice(&self) -> (r: &[MarkovEntry])
        ensures
            r@ == self.entries(),
    {
        self.chain.as_slice()
    }

    /// An empty chain.
    pub fn new() -> (m: Self)
        ensures
            m.entries().len() == 0,
            m.wf(),
    {
        Markov { chain: Vec::new() }
    }

    /// The index of the entry for (`key`, `to`), if there is one.
    fn find(&self, key: &Vec<String>, to: &String) -> (r: Option<usize>)
        ensures
            match r {
                Some(i) => i < self.entries().len() && self.entries()[i as int].is_pair(strings_view(key@), to@),
                None => forall|i: int|
                    0 <= i < self.entries().len() ==> !(#[trigger] self.entries()[i]).is_pair(strings_view(key@), to@),
            },
    {
        let mut i: usize = 0;
        while i < self.chain.len()
            invariant
                i <= self.entries().len(),
                forall|j: int|
                    0 <= j < i ==> !(#[trigger] self.entries()[j]).is_pair(strings_view(key@), to@),
            decreases self.entries().len() - i,
        {
            let e = &self.chain[i];
            if e.to == *to && same_strings(&e.key, key) {
                return Some(i);
            }
            i = i + 1;
        }
        None
    }

    /// Counts one more move from `key` to `to`.
    fn increment(&mut self, key: Vec<String>, to: &String)
        requires
            old(self).wf(),
            forall|i: int|
                0 <= i < old(self).entries().len() && (#[trigger] old(self).entries()[i]).is_pair(strings_view(key@), to@)
                    ==> old(self).entries()[i].count < usize::MAX,
        ensures
            final(self).wf(),
            final(self).entries().len() == old(self).entries().len() || final(self).entries().len() == old(self).entries().len() + 1,
            final(self).pairs() == old(self).pairs().insert((strings_view(key@), to@)),
            forall|i: int| 0 <= i < old(self).entries().len() ==> {
                if (#[trigger] old(self).entries()[i]).is_pair(strings_view(key@), to@) {
                    &&& final(self).entries()[i].is_pair(strings_view(key@), to@)
                    &&& final(self).entries()[i].count == old(self).entries()[i].count + 1
                } else {
                    final(self).entries()[i] == old(self).entries()[i]
                }
            },
            final(self).entries().len() == old(self).entries().len() + 1 ==> {
                &&& final(self).entries().last().is_pair(strings_view(key@), to@)
                &&& final(self).entries().last().count == 1
            },
            forall|k: Seq<Seq<char>>, t: Seq<char>|
                #[trigger] final(self).count(k, t) == old(self).count(k, t) + if k == strings_view(key@) && t == to@ {
                    1nat
                } else {
                    0nat
                },
            forall|k: Seq<Seq<char>>|
                #[trigger] final(self).total(k) == old(self).total(k) + if k == strings_view(key@) {
                    1nat
                } else {
                    0nat
                },
    {
        let ghost kv = strings_view(key@);
        let ghost s0 = self.entries();
        match self.find(&key, to) {
            Some(i) => {
                let c = self.chain[i].count;
                let e = MarkovEntry { key, to: copy_string(to), count: c + 1 };
                proof {
                    assert forall|k: Seq<Seq<char>>, t: Seq<char>|
                        count_in(s0.update(i as int, e), k, t) == count_in(s0, k, t) + if k == kv && t == to@ {
                            1nat
                        } else {
                            0nat
                        } by {
                        lemma_count_update(s0, i as int, e, k, t);
                    }
                    assert forall|k: Seq<Seq<char>>|
                        total_in(s0.update(i as int, e), k) == total_in(s0, k) + if k == kv {
                            1nat
                        } else {
                            0nat
                        } by {
                        lemma_count_update(s0, i as int, e, k, to@);
                    }
                }
                self.chain.set(i, e);
                proof {
                    let m0 = s0.map_values(|x: MarkovEntry| pair_of(x));
                    assert(self.entries().map_values(|x: MarkovEntry| pair_of(x)) =~= m0);
                    assert(m0[i as int] == (kv, to@));
                    assert(m0.to_set().contains((kv, to@)));
                    assert(self.pairs() =~= m0.to_set().insert((kv, to@)));
                    assert forall|a: int, b: int| 0 <= a < b < self.entries().len() implies !(
                    #[trigger] self.entries()[a]).is_pair((#[trigger] self.entries()[b]).key_view(), self.entries()[b].to@) by {
                        assert(!s0[a].is_pair(s0[b].key_view(), s0[b].to@));
                    }
                    assert forall|j: int| 0 <= j < s0.len() && (#[trigger] s0[j]).is_pair(kv, to@) implies j == i by {
                        if j != i {
                            if j < i {
                                assert(!s0[j].is_pair(s0[i as int].key_view(), s0[i as int].to@));
                            } else {
                                assert(!s0[i as int].is_pair(s0[j].key_view(), s0[j].to@));
                            }
                        }
                    }
                }
            },
            None => {
                let e = MarkovEntry { key, to: copy_string(to), count: 1 };
                proof {
                    assert forall|k: Seq<Seq<char>>, t: Seq<char>|
                        count_in(s0.push(e), k, t) == count_in(s0, k, t) + if k == kv && t == to@ {
                            1nat
                        } else {
                            0nat
                        } by {
                        lemma_count_push(s0, e, k, t);
                    }
                    assert forall|k: Seq<Seq<char>>|
                        total_in(s0.push(e), k) == total_in(s0, k) + if k == kv {
                            1nat
                        } else {
                            0nat
                        } by {
                        lemma_count_push(s0, e, k, to@);
                    }
                }
                self.chain.push(e);
                proof {
                    let m0 = s0.map_values(|x: MarkovEntry| pair_of(x));
                    assert(self.entries().map_values(|x: MarkovEntry| pair_of(x)) =~= m0.push((kv, to@)));
                    m0.lemma_push_to_set_commute((kv, to@));
                    assert forall|a: int, b: int| 0 <= a < b < self.entries().len() implies !(
                    #[trigger] self.entries()[a]).is_pair((#[trigger] self.entries()[b]).key_view(), self.entries()[b].to@) by {
                        if b < s0.len() {
                            assert(!s0[a].is_pair(s0[b].key_view(), s0[b].to@));
                        } else {
                            assert(!s0[a].is_pair(kv, to@));
                        }
                    }
                }
            },
        }
    }

    /// The key of the `n`-gram ending in `from`: the last `n - 1` entries of
    /// `context`, in the order given, then `from`.
    pub fn build_key(&self, context: &[String], from: &str, n: usize) -> (key: Vec<String>)
        requires
            n >= 1,
        ensures
            strings_view(key@) == context_key(strings_view(context@), from@, n as nat),
    {
        let len = context.len();
        let take = if n - 1 < len { n - 1 } else { len };
        let mut key: Vec<String> = Vec::new();
        let mut i: usize = len - take;
        while i < len
            invariant
                len == context@.len(),
                take <= len,
                len - take <= i <= len,
                key@.len() == i - (len - take),
                forall|j: int| 0 <= j < key@.len() ==> (#[trigger] key@[j])@ == context@[(len - take) + j]@,
            decreases len - i,
        {
            key.push(copy_string(&context[i]));
            i = i + 1;
        }
        key.push(owned(from));
        proof {
            assert(strings_view(key@) =~= context_key(strings_view(context@), from@, n as nat));
        }
        key
    }

    /// `build_key` for a context given as string slices.
    pub fn build_key_str(&self, context: &[&str], from: &str, n: usize) -> (key: Vec<String>)
        requires
            n >= 1,
        ensures
            strings_view(key@) == context_key(strs_view(context@), from@, n as nat),
    {
        let len = context.len();
        let take = if n - 1 < len { n - 1 } else { len };
        let mut key: Vec<String> = Vec::new();
        let mut i: usize = len - take;
        while i < len
            invariant
                len == context@.len(),
                take <= len,
                len - take <= i <= len,
                key@.len() == i - (len - take),
                forall|j: int| 0 <= j < key@.len() ==> (#[trigger] key@[j])@ == context@[(len - take) + j]@,
            decreases len - i,
        {
            let s: &str = context[i];
            key.push(owned(s));
            i = i + 1;
        }
        key.push(owned(from));
        proof {
            assert(strings_view(key@) =~= context_key(strs_view(context@), from@, n as nat));
        }
        key
    }

    /// Records the move `from` -> `to` under every n-gram key, `1 <= n <=
    /// MARKOV_N`, for which `context` holds at least `n - 1` entries: the key
    /// is the last `n - 1` entries of `context`, in the order given, then
    /// `from` (see `context_key`). `register_visit` passes the session's
    /// earlier directories most recent first, so a key of `n < MARKOV_N`
    /// directories holds the earliest `n - 1` of them. A move to the same
    /// directory is not recorded.
    pub fn register(&mut self, context: &[String], from: &str, to: &str)
        requires
            old(self).wf(),
            old(self).can_count(strings_view(context@), from@, to@),
        ensures
            final(self).wf(),
            from@ == to@ ==> final(self).entries() == old(self).entries(),
            move_counted(*old(self), *final(self), strings_view(context@), from@, to@),
            final(self).pairs() == old(self).pairs() + move_pairs(strings_view(context@), from@, to@),
            old(self).entries().len() <= final(self).entries().len() <= old(self).entries().len() + MARKOV_N,
            forall|i: int|
                0 <= i < final(self).entries().len() ==> (#[trigger] final(self).entries()[i]).count <= if i < old(
                    self,
                ).entries().len() {
                    old(self).entries()[i].count + 1
                } else {
                    1
                },
    {
        if str_eq(from, to) {
            proof {
                assert(move_pairs(strings_view(context@), from@, to@) =~= Set::empty());
                assert(self.pairs() + Set::empty() =~= self.pairs());
            }
            return;
        }
        let ghost ctx = strings_view(context@);
        let ghost m0 = *self;
        let to_s = owned(to);
        let mut n: usize = 1;
        while n <= MARKOV_N
            invariant
                1 <= n <= MARKOV_N + 1,
                ctx == strings_view(context@),
                from@ != to@,
                to_s@ == to@,
                self.wf(),
                m0.entries().len() <= self.entries().len() <= m0.entries().len() + (n - 1),
                m0.wf(),
                forall|k: Seq<Seq<char>>| registered_key(ctx, from@, k) ==> #[trigger] m0.count(k, to@) < usize::MAX,
                self.pairs() == m0.pairs() + Set::new(|p: (Seq<Seq<char>>, Seq<char>)| p.1 == to@ && registered_key(ctx, from@, p.0) && p.0.len() < n),
                forall|i: int|
                    0 <= i < self.entries().len() ==> if i < m0.entries().len() {
                        &&& (#[trigger] self.entries()[i]).key_view() == m0.entries()[i].key_view()
                        &&& self.entries()[i].to@ == m0.entries()[i].to@
                        &&& (self.entries()[i].key_view().len() >= n ==> self.entries()[i].count == m0.entries()[i].count)
                        &&& self.entries()[i].count <= m0.entries()[i].count + 1
                    } else {
                        &&& self.entries()[i].key_view().len() < n
                        &&& self.entries()[i].count == 1
                    },
                forall|k: Seq<Seq<char>>, t: Seq<char>|
                    #[trigger] self.count(k, t) == m0.count(k, t) + if t == to@ && registered_key(ctx, from@, k)
                        && k.len() < n {
                        1nat
                    } else {
                        0nat
                    },
                forall|k: Seq<Seq<char>>|
                    #[trigger] self.total(k) == m0.total(k) + if registered_key(ctx, from@, k) && k.len() < n {
                        1nat
                    } else {
                        0nat
                    },
            decreases MARKOV_N + 1 - n,
        {
            if n == 1 || context.len() >= n - 1 {
                let key = self.build_key(context, from, n);
                let ghost kv = strings_view(key@);
                let ghost before = *self;
                proof {
                    assert(kv.len() == n);
                    assert(registered_key(ctx, from@, kv));
                }
                proof {
                    assert(m0.count(kv, to@) < usize::MAX);
                    assert forall|i: int|
                        0 <= i < before.entries().len() && (#[trigger] before.entries()[i]).is_pair(kv, to@)
                            implies before.entries()[i].count < usize::MAX by {
                        if i < m0.entries().len() {
                            assert(m0.entries()[i].is_pair(kv, to@));
                            lemma_count_is_entry(m0.entries(), i, kv, to@);
                        }
                    }
                }
                self.increment(key, &to_s);
                proof {
                    assert(self.pairs() =~= m0.pairs() + Set::new(|p: (Seq<Seq<char>>, Seq<char>)| p.1 == to@ && registered_key(ctx, from@, p.0) && p.0.len() < n + 1)) by {
                        assert forall|p: (Seq<Seq<char>>, Seq<char>)| registered_key(ctx, from@, p.0) && p.0.len() == n implies p.0 == kv by {}
                    }
                    assert forall|i: int| 0 <= i < self.entries().len() implies if i < m0.entries().len() {
                        &&& (#[trigger] self.entries()[i]).key_view() == m0.entries()[i].key_view()
                        &&& self.entries()[i].to@ == m0.entries()[i].to@
                        &&& (self.entries()[i].key_view().len() >= n + 1 ==> self.entries()[i].count == m0.entries()[i].count)
                        &&& self.entries()[i].count <= m0.entries()[i].count + 1
                    } else {
                        &&& self.entries()[i].key_view().len() < n + 1
                        &&& self.entries()[i].count == 1
                    } by {
                        if i < before.entries().len() {
                            if before.entries()[i].is_pair(kv, to@) {
                            } else {
                                assert(self.entries()[i] == before.entries()[i]);
                            }
                        } else {
                            assert(i == self.entries().len() - 1);
                        }
                    }
                    assert forall|k: Seq<Seq<char>>, t: Seq<char>|
                        #[trigger] self.count(k, t) == m0.count(k, t) + if t == to@ && registered_key(ctx, from@, k)
                            && k.len() < n + 1 {
                            1nat
                        } else {
                            0nat
                        } by {
                        assert(self.count(k, t) == before.count(k, t) + if k == kv && t == to@ {
                            1nat
                        } else {
                            0nat
                        });
                        if registered_key(ctx, from@, k) && k.len() == n {
                            assert(k == kv);
                        }
                    }
                    assert forall|k: Seq<Seq<char>>|
                        #[trigger] self.total(k) == m0.total(k) + if registered_key(ctx, from@, k) && k.len() < n + 1 {
                            1nat
                        } else {
                            0nat
                        } by {
                        assert(self.total(k) == before.total(k) + if k == kv {
                            1nat
                        } else {
                            0nat
                        });
                        if registered_key(ctx, from@, k) && k.len() == n {
                            assert(k == kv);
                        }
                    }
                }
            } else {
                proof {
                    assert forall|k: Seq<Seq<char>>| registered_key(ctx, from@, k) implies k.len() != n by {}
                    assert(Set::new(|p: (Seq<Seq<char>>, Seq<char>)| p.1 == to@ && registered_key(ctx, from@, p.0) && p.0.len() < n) =~= Set::new(|p: (Seq<Seq<char>>, Seq<char>)| p.1 == to@ && registered_key(ctx, from@, p.0) && p.0.len() < n + 1));
                }
            }
            n = n + 1;
        }
        proof {
            assert(Set::new(|p: (Seq<Seq<char>>, Seq<char>)| p.1 == to@ && registered_key(ctx, from@, p.0) && p.0.len() < n) =~= move_pairs(ctx, from@, to@));
        }
    }

    /// Whether `register(context, from, to)` can count the move: whether
    /// none of the counts it adds one to is at the top of its range.
    pub fn can_register(&self, context: &[String], from: &str, to: &str) -> (r: bool)
        requires
            self.wf(),
        ensures
            r == self.can_count(strings_view(context@), from@, to@),
    {
        if str_eq(from, to) {
            return true;
        }
        let ghost ctx = strings_view(context@);
        let to_s = owned(to);
        let mut n: usize = 1;
        while n <= MARKOV_N
            invariant
                1 <= n <= MARKOV_N + 1,
                ctx == strings_view(context@),
                from@ != to@,
                to_s@ == to@,
                self.wf(),
                forall|k: Seq<Seq<char>>|
                    registered_key(ctx, from@, k) && k.len() < n ==> #[trigger] self.count(k, to@) < usize::MAX,
            decreases MARKOV_N + 1 - n,
        {
            if n == 1 || context.len() >= n - 1 {
                let key = self.build_key(context, from, n);
                let ghost kv = strings_view(key@);
                proof {
                    assert(kv.len() == n);
                    assert(registered_key(ctx, from@, kv));
                }
                match self.find(&key, &to_s) {
                    Some(i) => {
                        proof {
                            lemma_count_is_entry(self.entries(), i as int, kv, to@);
                        }
                        if self.chain[i].count == usize::MAX {
                            proof {
                                assert(self.count(kv, to@) == usize::MAX);
                            }
                            return false;
                        }
                    },
                    None => {
                        proof {
                            lemma_count_absent(self.entries(), kv, to@);
                        }
                    },
                }
                proof {
                    assert forall|k: Seq<Seq<char>>|
                        registered_key(ctx, from@, k) && k.len() < n + 1 implies #[trigger] self.count(k, to@)
                        < usize::MAX by {
                        if k.len() == n {
                            assert(k == kv);
                        }
                    }
                }
            } else {
                proof {
                    assert forall|k: Seq<Seq<char>>| registered_key(ctx, from@, k) implies k.len() != n by {}
                }
            }
            n = n + 1;
        }
        true
    }

    /// The number of distinct (key, destination) pairs recorded.
    pub fn transition_count(&self) -> (r: usize)
        requires
            self.wf(),
        ensures
            r == self.entries().len(),
            r == self.pairs().len(),
    {
        proof {
            lemma_pairs_len(self.entries());
        }
        self.chain.len()
    }

    /// The count and the total behind the probability of moving `from` ->
    /// `to`: under the longest n-gram key (n from `MARKOV_N` down to 1) whose
    /// moves total more than zero, how often `to` followed it and how many
    /// moves followed it in all. (0, 0) when no key applies; the probability
    /// is then zero, and otherwise the count divided by the total.
    pub fn probability_parts(&self, context: &[&str], from: &str, to: &str) -> (r: (usize, u128))
        requires
            self.wf(),
        ensures
            r.0 as nat == self.odds(strs_view(context@), from@, to@).0,
            r.1 as nat == self.odds(strs_view(context@), from@, to@).1,
    {
        let ghost ctx = strs_view(context@);
        let mut n: usize = MARKOV_N;
        while n >= 1
            invariant
                n <= MARKOV_N,
                self.wf(),
                ctx == strs_view(context@),
                lookup_from(self.entries(), ctx, from@, to@, n as nat) == lookup_from(
                    self.entries(),
                    ctx,
                    from@,
                    to@,
                    MARKOV_N as nat,
                ),
            decreases n,
        {
            let key = self.build_key_str(context, from, n);
            let (count, total) = self.key_totals(&key, to);
            if total > 0 {
                return (count, total);
            }
            n = n - 1;
        }
        (0, 0)
    }

    /// How often `to` followed `key`, and how many moves followed it in all.
    fn key_totals(&self, key: &Vec<String>, to: &str) -> (r: (usize, u128))
        requires
            self.wf(),
        ensures
            r.0 as nat == self.count(strings_view(key@), to@),
            r.1 as nat == self.total(strings_view(key@)),
    {
        let ghost kv = strings_view(key@);
        let mut count: usize = 0;
        let mut total: u128 = 0;
        let mut i: usize = 0;
        while i < self.chain.len()
            invariant
                i <= self.entries().len(),
                self.wf(),
                kv == strings_view(key@),
                count as nat == count_in(self.entries().subrange(0, i as int), kv, to@),
                total as nat == total_in(self.entries().subrange(0, i as int), kv),
            decreases self.entries().len() - i,
        {
            let e = &self.chain[i];
            let ghost pre = self.entries().subrange(0, i as int);
            proof {
                assert(self.entries().subrange(0, i + 1).drop_last() =~= pre);
                lemma_total_bound(pre, kv);
                lemma_count_le_total(self.entries().subrange(0, i + 1), kv, to@);
                let sub = self.entries().subrange(0, i + 1);
                assert(unique_pairs(sub)) by {
                    assert forall|a: int, b: int| 0 <= a < b < sub.len() implies !(#[trigger] sub[a]).is_pair(
                        (#[trigger] sub[b]).key_view(),
                        sub[b].to@,
                    ) by {
                        assert(sub[a] == self.entries()[a] && sub[b] == self.entries()[b]);
                    }
                }
                lemma_count_unique(sub, kv, to@);
                lemma_total_bound(self.entries().subrange(0, i + 1), kv);
                assert((i as nat) * (usize::MAX as nat) <= (usize::MAX as nat) * (usize::MAX as nat))
                    by (nonlinear_arith)
                    requires i <= usize::MAX;
            }
            if same_strings(&e.key, key) {
                total = total + e.count as u128;
                if str_eq(e.to.as_str(), to) {
                    count = count + e.count;
                }
            }
            i = i + 1;
        }
        proof {
            assert(self.entries().subrange(0, i as int) =~= self.entries());
        }
        (count, total)
    }
}

/// The key that `lookup_from` reads: the longest n-gram key, `n` down to 1,
/// whose moves total more than zero.
pub open spec fn lookup_key(s: Seq<MarkovEntry>, ctx: Seq<Seq<char>>, from: Seq<char>, n: nat) -> Option<
    Seq<Seq<char>>,
>
    decreases n,
{
    if n == 0 {
        None
    } else {
        let k = context_key(ctx, from, n);
        if total_in(s, k) > 0 {
            Some(k)
        } else {
            lookup_key(s, ctx, from, (n - 1) as nat)
        }
    }
}

/// The destinations recorded after key `k`, in order.
pub open spec fn destinations(s: Seq<MarkovEntry>, k: Seq<Seq<char>>) -> Seq<Seq<char>>
    decreases s.len(),
{
    if s.len() == 0 {
        Seq::empty()
    } else if s.last().key_view() == k {
        destinations(s.drop_last(), k).push(s.last().to@)
    } else {
        destinations(s.drop_last(), k)
    }
}

/// The sum of the counts of the destinations `d` after key `k`.
pub open spec fn counts_over(s: Seq<MarkovEntry>, k: Seq<Seq<char>>, d: Seq<Seq<char>>) -> nat
    decreases d.len(),
{
    if d.len() == 0 {
        0
    } else {
        counts_over(s, k, d.drop_last()) + count_in(s, k, d.last())
    }
}

proof fn lemma_lookup_key(s: Seq<MarkovEntry>, ctx: Seq<Seq<char>>, from: Seq<char>, to: Seq<char>, n: nat)
    ensures
        match lookup_key(s, ctx, from, n) {
            Some(k) => total_in(s, k) > 0 && lookup_from(s, ctx, from, to, n) == (count_in(s, k, to), total_in(s, k)),
            None => lookup_from(s, ctx, from, to, n) == (0nat, 0nat),
        },
    decreases n,
{
    if n > 0 {
        lemma_lookup_key(s, ctx, from, to, (n - 1) as nat);
    }
}

proof fn lemma_destination_has_entry(s: Seq<MarkovEntry>, k: Seq<Seq<char>>, i: int)
    requires
        0 <= i < destinations(s, k).len(),
    ensures
        exists|j: int| 0 <= j < s.len() && (#[trigger] s[j]).is_pair(k, destinations(s, k)[i]),
    decreases s.len(),
{
    let d = s.drop_last();
    if s.last().key_view() == k && i == destinations(s, k).len() - 1 {
        assert(s[s.len() - 1].is_pair(k, destinations(s, k)[i]));
    } else {
        lemma_destination_has_entry(d, k, i);
        let j = choose|j: int| 0 <= j < d.len() && (#[trigger] d[j]).is_pair(k, destinations(d, k)[i]);
        assert(s[j] == d[j]);
    }
}

proof fn lemma_counts_over_same(s1: Seq<MarkovEntry>, s2: Seq<MarkovEntry>, k: Seq<Seq<char>>, d: Seq<Seq<char>>)
    requires
        forall|i: int| 0 <= i < d.len() ==> count_in(s1, k, #[trigger] d[i]) == count_in(s2, k, d[i]),
    ensures
        counts_over(s1, k, d) == counts_over(s2, k, d),
    decreases d.len(),
{
    if d.len() > 0 {
        let dd = d.drop_last();
        assert forall|i: int| 0 <= i < dd.len() implies count_in(s1, k, #[trigger] dd[i]) == count_in(s2, k, dd[i]) by {
            assert(dd[i] == d[i]);
        }
        lemma_counts_over_same(s1, s2, k, dd);
    }
}

/// The destinations recorded after a key are distinct and their counts add
/// up to the key's total.
pub proof fn lemma_counts_sum_to_total(s: Seq<MarkovEntry>, k: Seq<Seq<char>>)
    requires
        unique_pairs(s),
    ensures
        counts_over(s, k, destinations(s, k)) == total_in(s, k),
        forall|i: int, j: int|
            0 <= i < j < destinations(s, k).len() ==> destinations(s, k)[i] != destinations(s, k)[j],
    decreases s.len(),
{
    if s.len() > 0 {
        let d = s.drop_last();
        let e = s.last();
        assert(unique_pairs(d)) by {
            assert forall|i: int, j: int| 0 <= i < j < d.len() implies !(#[trigger] d[i]).is_pair(
                (#[trigger] d[j]).key_view(),
                d[j].to@,
            ) by {
                assert(d[i] == s[i] && d[j] == s[j]);
            }
        }
        lemma_counts_sum_to_total(d, k);
        let dd = destinations(d, k);
        lemma_count_push(d, e, k, e.to@);
        assert(d.push(e) =~= s);
        if e.key_view() == k {
            assert forall|i: int| 0 <= i < dd.len() implies (#[trigger] dd[i]) != e.to@ by {
                lemma_destination_has_entry(d, k, i);
                let j = choose|j: int| 0 <= j < d.len() && (#[trigger] d[j]).is_pair(k, dd[i]);
                assert(s[j] == d[j]);
                assert(!s[j].is_pair(s[s.len() - 1].key_view(), s[s.len() - 1].to@));
            }
            assert forall|i: int| 0 <= i < dd.len() implies count_in(s, k, #[trigger] dd[i]) == count_in(d, k, dd[i]) by {
                lemma_count_push(d, e, k, dd[i]);
            }
            lemma_counts_over_same(s, d, k, dd);
            assert forall|j: int| 0 <= j < d.len() implies !(#[trigger] d[j]).is_pair(k, e.to@) by {
                assert(s[j] == d[j]);
                assert(!s[j].is_pair(s[s.len() - 1].key_view(), s[s.len() - 1].to@));
            }
            lemma_count_absent(d, k, e.to@);
            assert(destinations(s, k).drop_last() =~= dd);
        } else {
            assert forall|i: int| 0 <= i < dd.len() implies count_in(s, k, #[trigger] dd[i]) == count_in(d, k, dd[i]) by {
                lemma_count_push(d, e, k, dd[i]);
            }
            lemma_counts_over_same(s, d, k, dd);
        }
    }
}

/// Every move just counted is predicted: after `from` -> `to` (two different
/// directories) is counted after context `ctx`, the chain gives it a count of
/// at least one out of a positive total, so a probability above zero.
pub proof fn lemma_move_is_predicted(m0: Markov, m1: Markov, ctx: Seq<Seq<char>>, from: Seq<char>, to: Seq<char>)
    requires
        move_counted(m0, m1, ctx, from, to),
        from != to,
    ensures
        1 <= m1.odds(ctx, from, to).0 <= m1.odds(ctx, from, to).1,
{
    let k = context_key(ctx, from, MARKOV_N as nat);
    let take: int = if (MARKOV_N as int) - 1 < ctx.len() { (MARKOV_N as int) - 1 } else { ctx.len() as int };
    assert(k.len() == take + 1);
    assert(context_key(ctx, from, k.len()) =~= k);
    assert(registered_key(ctx, from, k));
    assert(m1.count(k, to) == m0.count(k, to) + 1);
    assert(m1.total(k) == m0.total(k) + 1);
    lemma_count_le_total(m1.entries(), k, to);
}

/// The bigram learns every move: after `from` -> `to` (two different
/// directories) is counted, whatever its context, the chain read without
/// context (as ranking reads it) gives the move a count of at least one out
/// of a positive total.
pub proof fn lemma_bigram_predicted(m0: Markov, m1: Markov, ctx: Seq<Seq<char>>, from: Seq<char>, to: Seq<char>)
    requires
        move_counted(m0, m1, ctx, from, to),
        from != to,
    ensures
        1 <= m1.odds(Seq::empty(), from, to).0 <= m1.odds(Seq::empty(), from, to).1,
{
    let k = seq![from];
    assert(context_key(ctx, from, 1) =~= k);
    assert(registered_key(ctx, from, k));
    assert(context_key(Seq::<Seq<char>>::empty(), from, MARKOV_N as nat) =~= k);
    assert(m1.count(k, to) == m0.count(k, to) + 1);
    assert(m1.total(k) == m0.total(k) + 1);
    lemma_count_le_total(m1.entries(), k, to);
}

/// Probabilities sum to one: from a given context and origin, every
/// destination's probability is read from the same key, with the same total,
/// and the counts of that key's (distinct) destinations add up to the total.
/// With no key applying, every destination gets (0, 0).
pub proof fn lemma_odds_sum_to_one(m: Markov, ctx: Seq<Seq<char>>, from: Seq<char>)
    requires
        m.wf(),
    ensures
        match lookup_key(m.entries(), ctx, from, MARKOV_N as nat) {
            Some(k) => {
                &&& m.total(k) > 0
                &&& forall|t: Seq<char>| #[trigger] m.odds(ctx, from, t) == (m.count(k, t), m.total(k))
                &&& counts_over(m.entries(), k, destinations(m.entries(), k)) == m.total(k)
                &&& forall|i: int, j: int|
                    0 <= i < j < destinations(m.entries(), k).len() ==> destinations(m.entries(), k)[i]
                        != destinations(m.entries(), k)[j]
            },
            None => forall|t: Seq<char>| #[trigger] m.odds(ctx, from, t) == (0nat, 0nat),
        },
{
    assert forall|t: Seq<char>| true implies match lookup_key(m.entries(), ctx, from, MARKOV_N as nat) {
        Some(k) => total_in(m.entries(), k) > 0 && #[trigger] m.odds(ctx, from, t) == (count_in(m.entries(), k, t), total_in(m.entries(), k)),
        None => m.odds(ctx, from, t) == (0nat, 0nat),
    } by {
        lemma_lookup_key(m.entries(), ctx, from, t, MARKOV_N as nat);
    }
    match lookup_key(m.entries(), ctx, from, MARKOV_N as nat) {
        Some(k) => {
            lemma_counts_sum_to_total(m.entries(), k);
            lemma_lookup_key(m.entries(), ctx, from, Seq::empty(), MARKOV_N as nat);
        },
        None => {},
    }
}

impl Default for Markov {
    fn default() -> (m: Self)
        ensures
            m.entries().len() == 0,
    {
        Markov::new()
    }
}


/// Reading the chain `n` levels down gives the longest key with moves, as
/// `lemma_longest_known_key_is_read` states.
proof fn lemma_lookup_reads_longest(
    s: Seq<MarkovEntry>,
    ctx: Seq<Seq<char>>,
    from: Seq<char>,
    to: Seq<char>,
    n: nat,
    top: nat,
)
    requires
        1 <= n <= top,
        total_in(s, context_key(ctx, from, n)) > 0,
        forall|k: nat| n < k <= top ==> #[trigger] total_in(s, context_key(ctx, from, k)) == 0,
    ensures
        lookup_from(s, ctx, from, to, top) == (
            count_in(s, context_key(ctx, from, n), to),
            total_in(s, context_key(ctx, from, n)),
        ),
    decreases top,
{
    if top > n {
        assert(total_in(s, context_key(ctx, from, top)) == 0);
        lemma_lookup_reads_longest(s, ctx, from, to, n, (top - 1) as nat);
    }
}

/// The chain predicts from the longest n-gram it knows: when the key of
/// the `n`-gram ending in `from` (`1 <= n <= MARKOV_N`) has been followed by
/// moves and no longer key has, the (count, total) read for every
/// destination is that key's: shorter keys are not consulted.
pub proof fn lemma_longest_known_key_is_read(m: Markov, ctx: Seq<Seq<char>>, from: Seq<char>, to: Seq<char>, n: nat)
    requires
        1 <= n <= MARKOV_N,
        m.total(context_key(ctx, from, n)) > 0,
        forall|k: nat| n < k <= MARKOV_N ==> #[trigger] m.total(context_key(ctx, from, k)) == 0,
    ensures
        m.odds(ctx, from, to) == (m.count(context_key(ctx, from, n), to), m.total(context_key(ctx, from, n))),
{
    assert forall|k: nat| n < k <= MARKOV_N implies #[trigger] total_in(m.entries(), context_key(ctx, from, k)) == 0 by {
        assert(m.total(context_key(ctx, from, k)) == 0);
    }
    lemma_lookup_reads_longest(m.entries(), ctx, from, to, n, MARKOV_N as nat);
}

proof fn lemma_lookup_unknown(s: Seq<MarkovEntry>, ctx: Seq<Seq<char>>, from: Seq<char>, to: Seq<char>, top: nat)
    requires
        forall|k: nat| 1 <= k <= top ==> #[trigger] total_in(s, context_key(ctx, from, k)) == 0,
    ensures
        lookup_from(s, ctx, from, to, top) == (0nat, 0nat),
    decreases top,
{
    if top > 0 {
        assert(total_in(s, context_key(ctx, from, top)) == 0);
        lemma_lookup_unknown(s, ctx, from, to, (top - 1) as nat);
    }
}

/// With no n-gram ending in `from` ever followed by a move, every
/// destination reads (0, 0).
pub proof fn lemma_unknown_origin_reads_nothing(m: Markov, ctx: Seq<Seq<char>>, from: Seq<char>, to: Seq<char>)
    requires
        forall|k: nat| 1 <= k <= MARKOV_N ==> #[trigger] m.total(context_key(ctx, from, k)) == 0,
    ensures
        m.odds(ctx, from, to) == (0nat, 0nat),
{
    assert forall|k: nat| 1 <= k <= MARKOV_N implies #[trigger] total_in(m.entries(), context_key(ctx, from, k)) == 0 by {
        assert(m.total(context_key(ctx, from, k)) == 0);
    }
    lemma_lookup_unknown(m.entries(), ctx, from, to, MARKOV_N as nat);
}

} // verus!
