//! Character-level scanning and decimal rendering helpers shared by the
//! parser and the consumers' report builders.
use vstd::prelude::*;
use vstd::string::StrSliceExecFns;
use vstd::string::StringExecFns;

verus! {

/// `i` is the position of the first occurrence of `c` in `s` at or after `from`.
pub open spec fn first_at(s: Seq<char>, from: int, c: char, i: int) -> bool {
    &&& from <= i < s.len()
    &&& s[i] == c
    &&& forall|k: int| from <= k < i ==> s[k] != c
}

/// `c` does not occur in `s` within `[from, to)`.
pub open spec fn no_char_in(s: Seq<char>, from: int, to: int, c: char) -> bool {
    forall|k: int| from <= k < to ==> s[k] != c
}

pub proof fn lemma_first_at_unique(s: Seq<char>, from: int, c: char, i: int, j: int)
    requires
        first_at(s, from, c, i),
        first_at(s, from, c, j),
    ensures
        i == j,
{
    if i < j {
        assert(s[i] != c);
    }
    if j < i {
        assert(s[j] != c);
    }
}

/// Index of the first occurrence of `c` in `s` at or after `from`, if any.
pub fn find_char(s: &str, from: usize, c: char) -> (r: Option<usize>)
    requires
        from <= s@.len(),
    ensures
        match r {
            Some(i) => first_at(s@, from as int, c, i as int),
            None => no_char_in(s@, from as int, s@.len() as int, c),
        },
{
    let n = s.unicode_len();
    let mut i = from;
    while i < n
        invariant
            from <= i <= n,
            n == s@.len(),
            no_char_in(s@, from as int, i as int, c),
        decreases n - i,
    {
        if s.get_char(i) == c {
            return Some(i);
        }
        i = i + 1;
    }
    None
}

/// The position of the first occurrence of `c` in `s` at or after `from`,
/// or `s.len()` if there is none.
pub open spec fn first_index(s: Seq<char>, from: int, c: char) -> int
    decreases s.len() - from when 0 <= from <= s.len()
{
    if from < 0 || from >= s.len() {
        s.len() as int
    } else if s[from] == c {
        from
    } else {
        first_index(s, from + 1, c)
    }
}

pub proof fn lemma_first_index_char(s: Seq<char>, from: int, c: char)
    requires
        0 <= from <= s.len(),
    ensures
        from <= first_index(s, from, c) <= s.len(),
        first_index(s, from, c) < s.len() ==> s[first_index(s, from, c)] == c,
        no_char_in(s, from, first_index(s, from, c), c),
    decreases s.len() - from,
{
    if from < s.len() && s[from] != c {
        lemma_first_index_char(s, from + 1, c);
    }
}

/// `find_char`'s positive answer is exactly `first_index`.
pub proof fn lemma_first_at_index(s: Seq<char>, from: int, c: char, i: int)
    requires
        0 <= from,
        first_at(s, from, c, i),
    ensures
        first_index(s, from, c) == i,
{
    lemma_first_index_char(s, from, c);
    let f = first_index(s, from, c);
    if f < i {
        assert(s[f] != c);
    }
    if f > i {
        assert(s[i] != c);
    }
}

/// `find_char`'s negative answer means `first_index` ran off the end.
pub proof fn lemma_no_char_index(s: Seq<char>, from: int, c: char)
    requires
        0 <= from <= s.len(),
        no_char_in(s, from, s.len() as int, c),
    ensures
        first_index(s, from, c) == s.len(),
{
    lemma_first_index_char(s, from, c);
    let f = first_index(s, from, c);
    if f < s.len() {
        assert(s[f] != c);
    }
}

pub open spec fn digit_char(d: int) -> char {
    if d == 0 {
        '0'
    } else if d == 1 {
        '1'
    } else if d == 2 {
        '2'
    } else if d == 3 {
        '3'
    } else if d == 4 {
        '4'
    } else if d == 5 {
        '5'
    } else if d == 6 {
        '6'
    } else if d == 7 {
        '7'
    } else if d == 8 {
        '8'
    } else {
        '9'
    }
}

/// The usual decimal rendering of `n`, most significant digit first.
pub open spec fn dec_digits(n: nat) -> Seq<char>
    decreases n,
{
    if n < 10 {
        seq![digit_char(n as int)]
    } else {
        dec_digits(n / 10) + seq![digit_char((n % 10) as int)]
    }
}

/// Decimal rendering of a possibly negative number.
pub open spec fn dec_int(n: int) -> Seq<char> {
    if n >= 0 {
        dec_digits(n as nat)
    } else {
        seq!['-'] + dec_digits((-n) as nat)
    }
}

/// Two-digit zero-padded rendering of `f < 100`.
pub open spec fn dec_two_digits(f: nat) -> Seq<char> {
    if f < 10 {
        seq!['0'] + dec_digits(f)
    } else {
        dec_digits(f)
    }
}

fn digit_str(d: u64) -> (r: &'static str)
    requires
        d < 10,
    ensures
        r@ == seq![digit_char(d as int)],
{
    let digits = "0123456789";
    proof {
        reveal_strlit("0123456789");
    }
    let i = d as usize;
    let r = digits.substring_char(i, i + 1);
    proof {
        assert(r@ =~= seq![digits@[d as int]]);
    }
    r
}

pub fn u64_to_dec(n: u64) -> (r: String)
    ensures
        r@ == dec_digits(n as nat),
    decreases n,
{
    let ds = digit_str(n % 10);
    if n < 10 {
        ds.to_owned()
    } else {
        let prefix = u64_to_dec(n / 10);
        prefix.concat(ds)
    }
}

pub fn i64_to_dec(n: i64) -> (r: String)
    ensures
        r@ == dec_int(n as int),
{
    if n >= 0 {
        u64_to_dec(n as u64)
    } else {
        let m: u64 = ((-(n + 1)) as u64) + 1;
        proof {
            reveal_strlit("-");
            assert(m as int == -(n as int));
        }
        let sign = String::from_str("-");
        assert(sign@ =~= seq!['-']);
        sign.concat(u64_to_dec(m).as_str())
    }
}

pub fn u64_to_two_digits(f: u64) -> (r: String)
    requires
        f < 100,
    ensures
        r@ == dec_two_digits(f as nat),
{
    if f < 10 {
        proof {
            reveal_strlit("0");
        }
        let zero = String::from_str("0");
        assert(zero@ =~= seq!['0']);
        zero.concat(u64_to_dec(f).as_str())
    } else {
        u64_to_dec(f)
    }
}

} // verus!
