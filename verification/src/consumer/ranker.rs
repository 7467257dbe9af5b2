//! The top-N ranker: counts requests per path section and per host, and
//! reports the most frequent entries of each.
//!
//! Ranking sorts by descending count and is stable: entries with equal
//! counts keep the order in which they were first observed, so repeated
//! runs over identical input produce identical reports.
use crate::consumer::Consumer;
use crate::parser::HttpLog;
use crate::text::dec_digits;
use crate::text::find_char;
use crate::text::first_index;
use crate::text::lemma_first_at_index;
use crate::text::lemma_no_char_index;
use crate::text::u64_to_dec;
use vstd::prelude::*;
use vstd::string::StrSliceExecFns;
use vstd::string::StringExecFns;

verus! {

/// The view of a counter table: each stored pair as (key characters, count).
pub open spec fn entries(v: Seq<(String, u64)>) -> Seq<(Seq<char>, u64)> {
    v.map_values(|p: (String, u64)| (p.0@, p.1))
}

/// Counter increment, saturating only at the (practically unreachable)
/// machine ceiling so that ingestion never fails.
pub open spec fn sat_inc(c: u64) -> u64 {
    if c < u64::MAX {
        (c + 1) as u64
    } else {
        c
    }
}

/// The position of `key` in the table, or the table's length if absent.
pub open spec fn key_index(m: Seq<(Seq<char>, u64)>, key: Seq<char>) -> int
    decreases m.len(),
{
    if m.len() == 0 {
        0
    } else if m[0].0 == key {
        0
    } else {
        1 + key_index(m.drop_first(), key)
    }
}

/// One observation of `key`: its count is incremented, or the key is
/// appended with count one on its first observation.
pub open spec fn bump(m: Seq<(Seq<char>, u64)>, key: Seq<char>) -> Seq<(Seq<char>, u64)> {
    let i = key_index(m, key);
    if i < m.len() {
        m.update(i, (key, sat_inc(m[i].1)))
    } else {
        m.push((key, 1))
    }
}

/// No key occurs twice in the table.
pub open spec fn unique_keys(m: Seq<(Seq<char>, u64)>) -> bool {
    forall|i: int, j: int| 0 <= i < j < m.len() ==> m[i].0 != m[j].0
}

/// The second space-separated token of the request line: the path.
pub open spec fn path_of(request: Seq<char>) -> Seq<char> {
    let a = first_index(request, 0, ' ');
    if a == request.len() {
        Seq::empty()
    } else {
        request.subrange(a + 1, first_index(request, a + 1, ' '))
    }
}

/// The path truncated to its first segment: `/` plus the characters between
/// the first and second slash, or the bare `/` if the path has no slash.
pub open spec fn section_of(request: Seq<char>) -> Seq<char> {
    let p = path_of(request);
    let j = first_index(p, 0, '/');
    if j == p.len() {
        seq!['/']
    } else {
        seq!['/'] + p.subrange(j + 1, first_index(p, j + 1, '/'))
    }
}

// ---------------------------------------------------------------------------
// Stable descending sort, as a specification.
// ---------------------------------------------------------------------------
/// Insert `x` behind every entry whose count is at least as large, in front
/// of the first strictly smaller one.
pub open spec fn insert_desc(x: (Seq<char>, u64), s: Seq<(Seq<char>, u64)>) -> Seq<
    (Seq<char>, u64),
>
    decreases s.len(),
{
    if s.len() == 0 {
        seq![x]
    } else if x.1 > s[0].1 {
        seq![x] + s
    } else {
        seq![s[0]] + insert_desc(x, s.drop_first())
    }
}

/// Stable insertion sort by descending count, processing the input from the
/// left so that earlier entries stay in front of later equal-count ones.
pub open spec fn sort_desc(s: Seq<(Seq<char>, u64)>) -> Seq<(Seq<char>, u64)>
    decreases s.len(),
{
    if s.len() == 0 {
        s
    } else {
        insert_desc(s.last(), sort_desc(s.drop_last()))
    }
}

pub open spec fn sorted_desc(s: Seq<(Seq<char>, u64)>) -> bool {
    forall|i: int, j: int| 0 <= i < j < s.len() ==> s[i].1 >= s[j].1
}

/// The ranking: the table sorted by descending count, truncated to the
/// first `max` entries.
pub open spec fn rank_spec(m: Seq<(Seq<char>, u64)>, max: int) -> Seq<(Seq<char>, u64)> {
    let sorted = sort_desc(m);
    if max <= sorted.len() {
        sorted.subrange(0, max)
    } else {
        sorted
    }
}

proof fn lemma_insert_len(x: (Seq<char>, u64), s: Seq<(Seq<char>, u64)>)
    ensures
        insert_desc(x, s).len() == s.len() + 1,
    decreases s.len(),
{
    if s.len() > 0 && !(x.1 > s[0].1) {
        lemma_insert_len(x, s.drop_first());
    }
}

proof fn lemma_sort_len(s: Seq<(Seq<char>, u64)>)
    ensures
        sort_desc(s).len() == s.len(),
    decreases s.len(),
{
    if s.len() > 0 {
        lemma_sort_len(s.drop_last());
        lemma_insert_len(s.last(), sort_desc(s.drop_last()));
    }
}

/// Where the scan for the insertion point stops, `insert_desc` splits the
/// sequence.
proof fn lemma_insert_at(x: (Seq<char>, u64), s: Seq<(Seq<char>, u64)>, p: int)
    requires
        0 <= p <= s.len(),
        forall|k: int| 0 <= k < p ==> s[k].1 >= x.1,
        p == s.len() || s[p].1 < x.1,
    ensures
        insert_desc(x, s) == s.subrange(0, p) + seq![x] + s.subrange(p, s.len() as int),
    decreases s.len(),
{
    if p == 0 {
        if s.len() == 0 {
            assert(insert_desc(x, s) =~= s.subrange(0, 0) + seq![x] + s.subrange(0, 0));
        } else {
            assert(s[0].1 < x.1);
            assert(insert_desc(x, s) =~= s.subrange(0, 0) + seq![x] + s.subrange(0, s.len() as int));
        }
    } else {
        assert(s[0].1 >= x.1);
        let t = s.drop_first();
        assert forall|k: int| 0 <= k < p - 1 implies t[k].1 >= x.1 by {
            assert(t[k] == s[k + 1]);
        }
        lemma_insert_at(x, t, p - 1);
        assert(t.subrange(0, p - 1) =~= s.subrange(1, p));
        assert(t.subrange(p - 1, t.len() as int) =~= s.subrange(p, s.len() as int));
        assert(seq![s[0]] + (s.subrange(1, p) + seq![x] + s.subrange(p, s.len() as int)) =~= s
            .subrange(0, p) + seq![x] + s.subrange(p, s.len() as int));
    }
}

proof fn lemma_insert_sorted(x: (Seq<char>, u64), s: Seq<(Seq<char>, u64)>)
    requires
        sorted_desc(s),
    ensures
        sorted_desc(insert_desc(x, s)),
    decreases s.len(),
{
    if s.len() == 0 {
    } else if x.1 > s[0].1 {
        let r = seq![x] + s;
        assert forall|i: int, j: int| 0 <= i < j < r.len() implies r[i].1 >= r[j].1 by {
            if i > 0 {
                assert(r[i] == s[i - 1]);
                assert(r[j] == s[j - 1]);
            } else {
                assert(r[j] == s[j - 1]);
                assert(s[0].1 >= s[j - 1].1);
            }
        }
    } else {
        let t = s.drop_first();
        assert forall|i: int, j: int| 0 <= i < j < t.len() implies t[i].1 >= t[j].1 by {
            assert(t[i] == s[i + 1]);
            assert(t[j] == s[j + 1]);
        }
        lemma_insert_sorted(x, t);
        let u = insert_desc(x, t);
        lemma_insert_len(x, t);
        let r = seq![s[0]] + u;
        // every element of u is either x (whose count is at most s[0]'s) or
        // an element of t (likewise)
        assert forall|i: int, j: int| 0 <= i < j < r.len() implies r[i].1 >= r[j].1 by {
            if i > 0 {
                assert(u[i - 1].1 >= u[j - 1].1);
            } else {
                assert(r[0] == s[0]);
                lemma_insert_member(x, t, j - 1);
            }
        }
    }
}

/// Every element of `insert_desc(x, t)` is `x` or an element of `t`.
proof fn lemma_insert_member(x: (Seq<char>, u64), t: Seq<(Seq<char>, u64)>, j: int)
    requires
        0 <= j < insert_desc(x, t).len(),
    ensures
        insert_desc(x, t)[j] == x || exists|k: int|
            0 <= k < t.len() && insert_desc(x, t)[j] == t[k],
    decreases t.len(),
{
    lemma_insert_len(x, t);
    if t.len() == 0 {
    } else if x.1 > t[0].1 {
        if j > 0 {
            assert(insert_desc(x, t)[j] == t[j - 1]);
        }
    } else {
        if j == 0 {
            assert(insert_desc(x, t)[0] == t[0]);
        } else {
            let u = t.drop_first();
            lemma_insert_member(x, u, j - 1);
            assert(insert_desc(x, t)[j] == insert_desc(x, u)[j - 1]);
            if insert_desc(x, u)[j - 1] != x {
                let k = choose|k: int| 0 <= k < u.len() && insert_desc(x, u)[j - 1] == u[k];
                assert(u[k] == t[k + 1]);
            }
        }
    }
}

proof fn lemma_sort_sorted(s: Seq<(Seq<char>, u64)>)
    ensures
        sorted_desc(sort_desc(s)),
    decreases s.len(),
{
    if s.len() > 0 {
        lemma_sort_sorted(s.drop_last());
        lemma_insert_sorted(s.last(), sort_desc(s.drop_last()));
    }
}

/// The subsequence of entries whose count is exactly `c`, in order.
pub open spec fn ties(s: Seq<(Seq<char>, u64)>, c: u64) -> Seq<(Seq<char>, u64)>
    decreases s.len(),
{
    if s.len() == 0 {
        s
    } else {
        (if s[0].1 == c {
            seq![s[0]]
        } else {
            Seq::empty()
        }) + ties(s.drop_first(), c)
    }
}

proof fn lemma_ties_absent(s: Seq<(Seq<char>, u64)>, c: u64)
    requires
        forall|k: int| 0 <= k < s.len() ==> s[k].1 != c,
    ensures
        ties(s, c) == Seq::<(Seq<char>, u64)>::empty(),
    decreases s.len(),
{
    if s.len() > 0 {
        let t = s.drop_first();
        assert forall|k: int| 0 <= k < t.len() implies t[k].1 != c by {
            assert(t[k] == s[k + 1]);
        }
        lemma_ties_absent(t, c);
        assert(ties(s, c) =~= Seq::<(Seq<char>, u64)>::empty());
    }
}

proof fn lemma_insert_ties(x: (Seq<char>, u64), s: Seq<(Seq<char>, u64)>, c: u64)
    requires
        sorted_desc(s),
    ensures
        ties(insert_desc(x, s), c) == ties(s, c) + (if x.1 == c {
            seq![x]
        } else {
            Seq::<(Seq<char>, u64)>::empty()
        }),
    decreases s.len(),
{
    let xpart = if x.1 == c {
        seq![x]
    } else {
        Seq::<(Seq<char>, u64)>::empty()
    };
    if s.len() == 0 {
        assert(ties(seq![x], c) =~= xpart + ties(seq![x].drop_first(), c));
        assert(seq![x].drop_first() =~= s);
        assert(ties(insert_desc(x, s), c) =~= ties(s, c) + xpart);
    } else if x.1 > s[0].1 {
        let r = seq![x] + s;
        assert(r.drop_first() =~= s);
        assert(ties(r, c) == xpart + ties(s, c));
        if x.1 == c {
            // nothing in s can have count c, which exceeds every count in s
            assert forall|k: int| 0 <= k < s.len() implies s[k].1 != c by {
                assert(s[0].1 >= s[k].1);
            }
            lemma_ties_absent(s, c);
            assert(ties(r, c) =~= ties(s, c) + xpart);
        } else {
            assert(ties(r, c) =~= ties(s, c) + xpart);
        }
    } else {
        let t = s.drop_first();
        assert forall|i: int, j: int| 0 <= i < j < t.len() implies t[i].1 >= t[j].1 by {
            assert(t[i] == s[i + 1]);
            assert(t[j] == s[j + 1]);
        }
        lemma_insert_ties(x, t, c);
        let hpart = if s[0].1 == c {
            seq![s[0]]
        } else {
            Seq::<(Seq<char>, u64)>::empty()
        };
        let r = seq![s[0]] + insert_desc(x, t);
        assert(insert_desc(x, s) == r);
        assert(r.drop_first() =~= insert_desc(x, t));
        assert(ties(r, c) == hpart + ties(insert_desc(x, t), c));
        assert(ties(s, c) == hpart + ties(t, c));
        assert(hpart + (ties(t, c) + xpart) =~= (hpart + ties(t, c)) + xpart);
    }
}

/// Ranking ties are stable: among the entries of any one count, sorting
/// preserves the order of the underlying table, so runs over identical
/// input report equal-count entries in the same relative order.  The
/// reported ranking is a prefix of the sorted sequence, so the same holds
/// of what is reported.
pub proof fn lemma_sort_ties_stable(s: Seq<(Seq<char>, u64)>, c: u64)
    ensures
        ties(sort_desc(s), c) == ties(s, c),
    decreases s.len(),
{
    if s.len() > 0 {
        let t = s.drop_last();
        let x = s.last();
        lemma_sort_ties_stable(t, c);
        lemma_sort_sorted(t);
        lemma_insert_ties(x, sort_desc(t), c);
        let xpart = if x.1 == c {
            seq![x]
        } else {
            Seq::<(Seq<char>, u64)>::empty()
        };
        assert(ties(sort_desc(s), c) == ties(t, c) + xpart);
        lemma_ties_snoc(s, c);
    }
}

/// `ties` over a sequence with its last element split off.
proof fn lemma_ties_snoc(s: Seq<(Seq<char>, u64)>, c: u64)
    requires
        s.len() > 0,
    ensures
        ties(s, c) == ties(s.drop_last(), c) + (if s.last().1 == c {
            seq![s.last()]
        } else {
            Seq::<(Seq<char>, u64)>::empty()
        }),
    decreases s.len(),
{
    let t = s.drop_last();
    let xpart = if s.last().1 == c {
        seq![s.last()]
    } else {
        Seq::<(Seq<char>, u64)>::empty()
    };
    if s.len() == 1 {
        assert(s.drop_first() =~= Seq::<(Seq<char>, u64)>::empty());
        assert(t =~= Seq::<(Seq<char>, u64)>::empty());
        assert(ties(s, c) =~= ties(t, c) + xpart);
    } else {
        let u = s.drop_first();
        lemma_ties_snoc(u, c);
        assert(u.last() == s.last());
        assert(u.drop_last() =~= t.drop_first());
        let hpart = if s[0].1 == c {
            seq![s[0]]
        } else {
            Seq::<(Seq<char>, u64)>::empty()
        };
        assert(ties(s, c) == hpart + ties(u, c));
        assert(t[0] == s[0]);
        assert(ties(t, c) == hpart + ties(t.drop_first(), c));
        assert(hpart + (ties(t.drop_first(), c) + xpart) =~= (hpart + ties(t.drop_first(), c))
            + xpart);
    }
}

proof fn lemma_key_index_char(m: Seq<(Seq<char>, u64)>, key: Seq<char>)
    ensures
        0 <= key_index(m, key) <= m.len(),
        key_index(m, key) < m.len() ==> m[key_index(m, key)].0 == key,
        forall|k: int| 0 <= k < key_index(m, key) ==> m[k].0 != key,
    decreases m.len(),
{
    if m.len() > 0 && m[0].0 != key {
        let t = m.drop_first();
        lemma_key_index_char(t, key);
        assert forall|k: int| 0 <= k < key_index(m, key) implies m[k].0 != key by {
            if k > 0 {
                assert(t[k - 1] == m[k]);
            }
        }
        if key_index(m, key) < m.len() {
            assert(m[key_index(m, key)] == t[key_index(t, key)]);
        }
    }
}

/// `bump` never disturbs other keys and never duplicates one.
pub proof fn lemma_bump_unique(m: Seq<(Seq<char>, u64)>, key: Seq<char>)
    requires
        unique_keys(m),
    ensures
        unique_keys(bump(m, key)),
{
    lemma_key_index_char(m, key);
    let i = key_index(m, key);
    let r = bump(m, key);
    if i < m.len() {
        assert forall|a: int, b: int| 0 <= a < b < r.len() implies r[a].0 != r[b].0 by {
            assert(m[a].0 != m[b].0);
        }
    } else {
        assert forall|a: int, b: int| 0 <= a < b < r.len() implies r[a].0 != r[b].0 by {
            if b < m.len() {
                assert(m[a].0 != m[b].0);
            } else {
                assert(r[b].0 == key);
                assert(m[a].0 != key);
            }
        }
    }
}

proof fn lemma_entries_update(v: Seq<(String, u64)>, i: int, x: (String, u64))
    requires
        0 <= i < v.len(),
    ensures
        entries(v.update(i, x)) == entries(v).update(i, (x.0@, x.1)),
{
    assert(entries(v.update(i, x)) =~= entries(v).update(i, (x.0@, x.1)));
}

proof fn lemma_entries_push(v: Seq<(String, u64)>, x: (String, u64))
    ensures
        entries(v.push(x)) == entries(v).push((x.0@, x.1)),
{
    assert(entries(v.push(x)) =~= entries(v).push((x.0@, x.1)));
}

proof fn lemma_entries_insert(v: Seq<(String, u64)>, i: int, x: (String, u64))
    requires
        0 <= i <= v.len(),
    ensures
        entries(v.insert(i, x)) == entries(v).insert(i, (x.0@, x.1)),
{
    assert(entries(v.insert(i, x)) =~= entries(v).insert(i, (x.0@, x.1)));
}

/// Record one observation of `key` in the counter table.
fn bump_vec(v: &mut Vec<(String, u64)>, key: &String)
    ensures
        entries(final(v)@) == bump(entries(old(v)@), key@),
{
    let ghost m = entries(old(v)@);
    proof {
        lemma_key_index_char(m, key@);
    }
    let mut i: usize = 0;
    while i < v.len()
        invariant
            i <= v.len(),
            v@ == old(v)@,
            m == entries(v@),
            forall|k: int| 0 <= k < i ==> m[k].0 != key@,
        decreases v.len() - i,
    {
        if v[i].0 == *key {
            let k2 = v[i].0.clone();
            let c = v[i].1;
            let c2 = if c < u64::MAX {
                c + 1
            } else {
                c
            };
            proof {
                lemma_key_index_char(m, key@);
                assert(m[i as int].0 == key@);
                if key_index(m, key@) < i as int {
                    assert(m[key_index(m, key@)].0 != key@);
                }
                assert(key_index(m, key@) == i as int);
            }
            v[i] = (k2, c2);
            proof {
                lemma_entries_update(old(v)@, i as int, (k2, c2));
            }
            return ;
        }
        i = i + 1;
    }
    proof {
        if key_index(m, key@) < m.len() {
            assert(m[key_index(m, key@)].0 == key@);
        }
        assert(key_index(m, key@) == m.len());
    }
    let x = (key.clone(), 1u64);
    let ghost xg = x;
    v.push(x);
    proof {
        lemma_entries_push(old(v)@, xg);
    }
}

/// Extract the ranked section of the request line's path.
fn extract_section(request: &str) -> (r: String)
    ensures
        r@ == section_of(request@),
{
    proof {
        reveal_strlit("/");
    }
    let n = request.unicode_len();
    let a = match find_char(request, 0, ' ') {
        Some(i) => {
            proof {
                lemma_first_at_index(request@, 0, ' ', i as int);
            }
            i
        },
        None => {
            proof {
                lemma_no_char_index(request@, 0, ' ');
            }
            n
        },
    };
    if a == n {
        let r = String::from_str("/");
        proof {
            assert(r@ =~= seq!['/']);
            assert(first_index(Seq::<char>::empty(), 0, '/') == 0);
        }
        return r;
    }
    let b = match find_char(request, a + 1, ' ') {
        Some(i) => {
            proof {
                lemma_first_at_index(request@, a + 1, ' ', i as int);
            }
            i
        },
        None => {
            proof {
                lemma_no_char_index(request@, a + 1, ' ');
            }
            n
        },
    };
    let path = request.substring_char(a + 1, b);
    proof {
        assert(path@ == path_of(request@));
    }
    let pl = path.unicode_len();
    let j = match find_char(path, 0, '/') {
        Some(i) => {
            proof {
                lemma_first_at_index(path@, 0, '/', i as int);
            }
            i
        },
        None => {
            proof {
                lemma_no_char_index(path@, 0, '/');
            }
            pl
        },
    };
    if j == pl {
        let r = String::from_str("/");
        proof {
            assert(r@ =~= seq!['/']);
        }
        return r;
    }
    let j2 = match find_char(path, j + 1, '/') {
        Some(i) => {
            proof {
                lemma_first_at_index(path@, j + 1, '/', i as int);
            }
            i
        },
        None => {
            proof {
                lemma_no_char_index(path@, j + 1, '/');
            }
            pl
        },
    };
    let seg = path.substring_char(j + 1, j2);
    let mut r = String::from_str("/");
    proof {
        assert(r@ =~= seq!['/']);
    }
    r.append(seg);
    r
}

/// Counts requests per path section and per host, and ranks them.
pub struct Ranker {
    top_sections: Vec<(String, u64)>,
    top_hosts: Vec<(String, u64)>,
    max_ranking: usize,
}

impl Ranker {
    /// The section counter table, as (section, count) in first-seen order.
    pub closed spec fn sections(&self) -> Seq<(Seq<char>, u64)> {
        entries(self.top_sections@)
    }

    /// The host counter table, as (host, count) in first-seen order.
    pub closed spec fn hosts(&self) -> Seq<(Seq<char>, u64)> {
        entries(self.top_hosts@)
    }

    /// How many entries a ranking reports.
    pub closed spec fn max_rank(&self) -> int {
        self.max_ranking as int
    }

    pub fn new() -> (r: Ranker)
        ensures
            r.sections() == Seq::<(Seq<char>, u64)>::empty(),
            r.hosts() == Seq::<(Seq<char>, u64)>::empty(),
            r.max_rank() == 5,
            r.wf(),
    {
        let r = Ranker { top_sections: Vec::new(), top_hosts: Vec::new(), max_ranking: 5 };
        proof {
            assert(r.sections() =~= Seq::<(Seq<char>, u64)>::empty());
            assert(r.hosts() =~= Seq::<(Seq<char>, u64)>::empty());
        }
        r
    }

    /// Configure how many entries each ranking reports.
    pub fn set_max_ranking(&mut self, n: usize)
        ensures
            final(self).max_rank() == n,
            final(self).sections() == old(self).sections(),
            final(self).hosts() == old(self).hosts(),
            final(self).wf() == old(self).wf(),
    {
        self.max_ranking = n;
    }

    /// The stored section table, for callers that want the raw counts.
    pub fn sections_vec(&self) -> (r: &Vec<(String, u64)>)
        ensures
            entries(r@) == self.sections(),
    {
        &self.top_sections
    }

    /// The stored host table, for callers that want the raw counts.
    pub fn hosts_vec(&self) -> (r: &Vec<(String, u64)>)
        ensures
            entries(r@) == self.hosts(),
    {
        &self.top_hosts
    }

    /// Count the record's path section.
    pub fn process_sections(&mut self, http_log: &HttpLog)
        requires
            old(self).wf(),
        ensures
            final(self).sections() == bump(old(self).sections(), section_of(http_log@.request)),
            final(self).hosts() == old(self).hosts(),
            final(self).max_rank() == old(self).max_rank(),
            final(self).wf(),
    {
        let section = extract_section(http_log.request.as_str());
        proof {
            lemma_bump_unique(self.sections(), section@);
        }
        bump_vec(&mut self.top_sections, &section);
    }

    /// Count the record's host, unless it is the `-` placeholder.
    pub fn process_hosts(&mut self, http_log: &HttpLog)
        requires
            old(self).wf(),
        ensures
            final(self).hosts() == (if http_log@.host == seq!['-'] {
                old(self).hosts()
            } else {
                bump(old(self).hosts(), http_log@.host)
            }),
            final(self).sections() == old(self).sections(),
            final(self).max_rank() == old(self).max_rank(),
            final(self).wf(),
    {
        let host = http_log.host.as_str();
        let placeholder = host.unicode_len() == 1 && host.get_char(0) == '-';
        proof {
            if placeholder {
                assert(http_log@.host =~= seq!['-']);
            } else {
                assert(http_log@.host != seq!['-']) by {
                    if http_log@.host =~= seq!['-'] {
                        assert(http_log@.host.len() == 1);
                        assert(http_log@.host[0] == '-');
                    }
                }
            }
        }
        if !placeholder {
            proof {
                lemma_bump_unique(self.hosts(), http_log@.host);
            }
            bump_vec(&mut self.top_hosts, &http_log.host);
        }
    }

    /// The top entries of a counter table: sorted by descending count,
    /// stable for equal counts, truncated to the configured length.
    pub fn rank(&self, container: &Vec<(String, u64)>) -> (r: Vec<(String, u64)>)
        ensures
            entries(r@) == rank_spec(entries(container@), self.max_rank()),
    {
        let ghost full = entries(container@);
        let mut out: Vec<(String, u64)> = Vec::new();
        proof {
            assert(entries(out@) =~= Seq::<(Seq<char>, u64)>::empty());
            assert(full.subrange(0, 0) =~= Seq::<(Seq<char>, u64)>::empty());
        }
        let mut idx: usize = 0;
        while idx < container.len()
            invariant
                idx <= container.len(),
                full == entries(container@),
                entries(out@) == sort_desc(full.subrange(0, idx as int)),
                out.len() == idx,
            decreases container.len() - idx,
        {
            let x = (container[idx].0.clone(), container[idx].1);
            let ghost xd = (x.0@, x.1);
            proof {
                assert(xd == full[idx as int]);
                lemma_sort_len(full.subrange(0, idx as int));
            }
            let mut p: usize = 0;
            while p < out.len() && out[p].1 >= x.1
                invariant
                    p <= out.len(),
                    forall|k: int| 0 <= k < p ==> entries(out@)[k].1 >= x.1,
                    out.len() == entries(out@).len(),
                decreases out.len() - p,
            {
                p = p + 1;
            }
            proof {
                lemma_insert_at(xd, entries(out@), p as int);
                lemma_entries_insert(out@, p as int, x);
                assert(entries(out@).insert(p as int, xd) =~= entries(out@).subrange(0, p as int)
                    + seq![xd] + entries(out@).subrange(p as int, entries(out@).len() as int));
                let prev = full.subrange(0, idx as int);
                let cur = full.subrange(0, idx as int + 1);
                assert(cur.drop_last() =~= prev);
                assert(cur.last() == xd);
                assert(sort_desc(cur) == insert_desc(xd, sort_desc(prev)));
            }
            out.insert(p, x);
            idx = idx + 1;
        }
        proof {
            assert(full.subrange(0, full.len() as int) =~= full);
        }
        let mut r = out;
        r.truncate(self.max_ranking);
        proof {
            lemma_sort_len(full);
            if self.max_rank() > full.len() {
                assert(r@ == out@);
            }
        }
        r
    }
}

/// One line of a ranking report for each ranked entry, in rank order.
pub open spec fn report_lines(s: Seq<(Seq<char>, u64)>) -> Seq<char>
    decreases s.len(),
{
    if s.len() == 0 {
        Seq::empty()
    } else {
        report_lines(s.drop_last()) + ("    "@ + s.last().0 + " "@ + dec_digits(
            s.last().1 as nat,
        ) + "\n"@)
    }
}

/// The ranker's full report: the top sections, then the top hosts.
pub open spec fn ranker_report(
    sections: Seq<(Seq<char>, u64)>,
    hosts: Seq<(Seq<char>, u64)>,
    max: int,
) -> Seq<char> {
    "  Most requested sections:\n"@ + report_lines(rank_spec(sections, max))
        + "  Most active hosts:\n"@ + report_lines(rank_spec(hosts, max))
}

/// Append one report line per ranked entry.
fn append_lines(r: &mut String, ranked: &Vec<(String, u64)>)
    ensures
        final(r)@ == old(r)@ + report_lines(entries(ranked@)),
{
    let ghost rs = entries(ranked@);
    proof {
        assert(rs.subrange(0, 0) =~= Seq::<(Seq<char>, u64)>::empty());
        assert(old(r)@ + report_lines(rs.subrange(0, 0)) =~= old(r)@);
    }
    let mut idx: usize = 0;
    while idx < ranked.len()
        invariant
            idx <= ranked.len(),
            rs == entries(ranked@),
            r@ == old(r)@ + report_lines(rs.subrange(0, idx as int)),
        decreases ranked.len() - idx,
    {
        r.append("    ");
        r.append(ranked[idx].0.as_str());
        r.append(" ");
        r.append(u64_to_dec(ranked[idx].1).as_str());
        r.append("\n");
        proof {
            let cur = rs.subrange(0, idx as int + 1);
            assert(cur.drop_last() =~= rs.subrange(0, idx as int));
            assert(cur.last() == rs[idx as int]);
            assert(r@ =~= old(r)@ + report_lines(cur));
        }
        idx = idx + 1;
    }
    proof {
        assert(rs.subrange(0, rs.len() as int) =~= rs);
        assert(ranked.len() == rs.len());
    }
}

impl Consumer for Ranker {
    open spec fn wf(&self) -> bool {
        unique_keys(self.sections()) && unique_keys(self.hosts())
    }

    fn ingest(&mut self, http_log: &HttpLog)
        ensures
            final(self).sections() == bump(old(self).sections(), section_of(http_log@.request)),
            final(self).hosts() == (if http_log@.host == seq!['-'] {
                old(self).hosts()
            } else {
                bump(old(self).hosts(), http_log@.host)
            }),
            final(self).max_rank() == old(self).max_rank(),
    {
        self.process_sections(http_log);
        self.process_hosts(http_log);
    }

    fn report(&self) -> (r: String)
        ensures
            r@ == ranker_report(self.sections(), self.hosts(), self.max_rank()),
    {
        let section_ranking = self.rank(&self.top_sections);
        let host_ranking = self.rank(&self.top_hosts);
        let mut r = String::new();
        r.append("  Most requested sections:\n");
        append_lines(&mut r, &section_ranking);
        r.append("  Most active hosts:\n");
        append_lines(&mut r, &host_ranking);
        proof {
            assert(r@ =~= ranker_report(self.sections(), self.hosts(), self.max_rank()));
        }
        r
    }
}

} // verus!
