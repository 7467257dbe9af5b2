//! The access-log line parser.
//!
//! A line must consist of seven fields: `host`, `identity` and `user`
//! (non-empty, space-free tokens), a bracketed timestamp, a double-quoted
//! request string (which may itself contain spaces), a numeric status code
//! and a size token, separated by single spaces.  Parsing is strict and
//! all-or-nothing: a line that does not match the grammar yields no record
//! at all, and the caller is expected to skip it silently.
use crate::text::find_char;
use crate::text::first_at;
use crate::text::lemma_first_at_unique;
use crate::text::no_char_in;
use vstd::prelude::*;
use vstd::string::StrSliceExecFns;
use vstd::string::StringExecFns;

verus! {

/// The mathematical content of one parsed record: the seven captured fields.
#[verifier::ext_equal]
pub ghost struct LogFields {
    pub host: Seq<char>,
    pub identity: Seq<char>,
    pub user: Seq<char>,
    pub time: Seq<char>,
    pub request: Seq<char>,
    pub status: Seq<char>,
    pub size: Seq<char>,
}

/// The structured result of parsing one raw log line.
pub struct HttpLog {
    pub host: String,
    pub identity: String,
    pub user: String,
    pub time: String,
    pub request: String,
    pub status: String,
    pub size: String,
}

impl View for HttpLog {
    type V = LogFields;

    open spec fn view(&self) -> LogFields {
        LogFields {
            host: self.host@,
            identity: self.identity@,
            user: self.user@,
            time: self.time@,
            request: self.request@,
            status: self.status@,
            size: self.size@,
        }
    }
}

impl core::default::Default for HttpLog {
    /// A record with every field empty, for building test records field by
    /// field.  Note that an empty field never comes out of a successful
    /// parse.
    fn default() -> (r: HttpLog)
        ensures
            r@ == (LogFields {
                host: Seq::<char>::empty(),
                identity: Seq::<char>::empty(),
                user: Seq::<char>::empty(),
                time: Seq::<char>::empty(),
                request: Seq::<char>::empty(),
                status: Seq::<char>::empty(),
                size: Seq::<char>::empty(),
            }),
    {
        HttpLog {
            host: String::new(),
            identity: String::new(),
            user: String::new(),
            time: String::new(),
            request: String::new(),
            status: String::new(),
            size: String::new(),
        }
    }
}

pub open spec fn no_char(s: Seq<char>, c: char) -> bool {
    forall|k: int| 0 <= k < s.len() ==> s[k] != c
}

pub open spec fn is_digit(c: char) -> bool {
    ||| c == '0'
    ||| c == '1'
    ||| c == '2'
    ||| c == '3'
    ||| c == '4'
    ||| c == '5'
    ||| c == '6'
    ||| c == '7'
    ||| c == '8'
    ||| c == '9'
}

pub open spec fn all_digits(s: Seq<char>) -> bool {
    forall|k: int| 0 <= k < s.len() ==> is_digit(s[k])
}

/// Each captured field has the shape the grammar demands of it.
pub open spec fn fields_wf(p: LogFields) -> bool {
    &&& p.host.len() > 0 && no_char(p.host, ' ')
    &&& p.identity.len() > 0 && no_char(p.identity, ' ')
    &&& p.user.len() > 0 && no_char(p.user, ' ')
    &&& p.time.len() > 0 && no_char(p.time, ']')
    &&& p.request.len() > 0 && no_char(p.request, '"')
    &&& p.status.len() > 0 && all_digits(p.status)
    &&& p.size.len() > 0 && no_char(p.size, ' ')
}

/// The serialization of the captured fields back into a line.
pub open spec fn log_line_of(p: LogFields) -> Seq<char> {
    p.host + (seq![' '] + (p.identity + (seq![' '] + (p.user + (seq![' '] + (seq!['['] + (p.time
        + (seq![']'] + (seq![' '] + (seq!['"'] + (p.request + (seq!['"'] + (seq![' '] + (p.status
        + (seq![' '] + p.size)))))))))))))))
}

// Offsets of the separators and fields inside a well-formed line, in terms of
// the field lengths alone.
pub open spec fn o_sp1(p: LogFields) -> int {
    p.host.len() as int
}

pub open spec fn o_id(p: LogFields) -> int {
    o_sp1(p) + 1
}

pub open spec fn o_sp2(p: LogFields) -> int {
    o_id(p) + p.identity.len()
}

pub open spec fn o_us(p: LogFields) -> int {
    o_sp2(p) + 1
}

pub open spec fn o_sp3(p: LogFields) -> int {
    o_us(p) + p.user.len()
}

pub open spec fn o_lb(p: LogFields) -> int {
    o_sp3(p) + 1
}

pub open spec fn o_tm(p: LogFields) -> int {
    o_lb(p) + 1
}

pub open spec fn o_rb(p: LogFields) -> int {
    o_tm(p) + p.time.len()
}

pub open spec fn o_sp4(p: LogFields) -> int {
    o_rb(p) + 1
}

pub open spec fn o_q1(p: LogFields) -> int {
    o_sp4(p) + 1
}

pub open spec fn o_rq(p: LogFields) -> int {
    o_q1(p) + 1
}

pub open spec fn o_q2(p: LogFields) -> int {
    o_rq(p) + p.request.len()
}

pub open spec fn o_sp5(p: LogFields) -> int {
    o_q2(p) + 1
}

pub open spec fn o_st(p: LogFields) -> int {
    o_sp5(p) + 1
}

pub open spec fn o_sp6(p: LogFields) -> int {
    o_st(p) + p.status.len()
}

pub open spec fn o_sz(p: LogFields) -> int {
    o_sp6(p) + 1
}

pub open spec fn o_end(p: LogFields) -> int {
    o_sz(p) + p.size.len()
}

/// `s` is a well-formed log line whose fields are exactly `p`: each field
/// occupies the subrange between its separators, and each separator stands
/// where the field lengths put it.  `lemma_log_line_concat` shows that such
/// a line is exactly the serialization of its fields.
pub open spec fn is_log_line(s: Seq<char>, p: LogFields) -> bool {
    &&& fields_wf(p)
    &&& s.len() == o_end(p)
    &&& p.host == s.subrange(0, o_sp1(p))
    &&& p.identity == s.subrange(o_id(p), o_sp2(p))
    &&& p.user == s.subrange(o_us(p), o_sp3(p))
    &&& p.time == s.subrange(o_tm(p), o_rb(p))
    &&& p.request == s.subrange(o_rq(p), o_q2(p))
    &&& p.status == s.subrange(o_st(p), o_sp6(p))
    &&& p.size == s.subrange(o_sz(p), o_end(p))
    &&& s[o_sp1(p)] == ' '
    &&& s[o_sp2(p)] == ' '
    &&& s[o_sp3(p)] == ' '
    &&& s[o_lb(p)] == '['
    &&& s[o_rb(p)] == ']'
    &&& s[o_sp4(p)] == ' '
    &&& s[o_q1(p)] == '"'
    &&& s[o_q2(p)] == '"'
    &&& s[o_sp5(p)] == ' '
    &&& s[o_sp6(p)] == ' '
}

/// The grammar is deterministic, so parsing is a function of the line alone.
pub open spec fn spec_parse(s: Seq<char>) -> Option<LogFields> {
    if exists|p: LogFields| is_log_line(s, p) {
        Some(choose|p: LogFields| is_log_line(s, p))
    } else {
        None
    }
}

/// A region of `s` known to equal a sequence free of `c`, followed by `c`
/// itself, pins the first occurrence of `c`.
proof fn lemma_first_from_region(s: Seq<char>, from: int, i: int, c: char, f: Seq<char>)
    requires
        0 <= from,
        from + f.len() == i,
        i < s.len(),
        f == s.subrange(from, i),
        no_char(f, c),
        s[i] == c,
    ensures
        first_at(s, from, c, i),
{
    assert forall|k: int| from <= k < i implies s[k] != c by {
        assert(f[k - from] == s.subrange(from, i)[k - from]);
    }
}

/// In a well-formed line each separator is the first of its kind after the
/// previous one, which is what makes the grammar deterministic.
#[verifier::rlimit(50)]
proof fn lemma_line_shape(s: Seq<char>, p: LogFields)
    requires
        is_log_line(s, p),
    ensures
        first_at(s, 0, ' ', o_sp1(p)),
        first_at(s, o_id(p), ' ', o_sp2(p)),
        first_at(s, o_us(p), ' ', o_sp3(p)),
        first_at(s, o_tm(p), ']', o_rb(p)),
        first_at(s, o_rq(p), '"', o_q2(p)),
        first_at(s, o_st(p), ' ', o_sp6(p)),
        forall|k: int| o_st(p) <= k < o_sp6(p) ==> is_digit(s[k]),
        no_char_in(s, o_sz(p), s.len() as int, ' '),
        o_sz(p) < s.len(),
{
    lemma_first_from_region(s, 0, o_sp1(p), ' ', p.host);
    lemma_first_from_region(s, o_id(p), o_sp2(p), ' ', p.identity);
    lemma_first_from_region(s, o_us(p), o_sp3(p), ' ', p.user);
    lemma_first_from_region(s, o_tm(p), o_rb(p), ']', p.time);
    lemma_first_from_region(s, o_rq(p), o_q2(p), '"', p.request);
    assert(no_char(p.status, ' ')) by {
        assert forall|k: int| 0 <= k < p.status.len() implies p.status[k] != ' ' by {
            assert(is_digit(p.status[k]));
        }
    }
    lemma_first_from_region(s, o_st(p), o_sp6(p), ' ', p.status);
    assert forall|k: int| o_st(p) <= k < o_sp6(p) implies is_digit(s[k]) by {
        assert(s[k] == s.subrange(o_st(p), o_sp6(p))[k - o_st(p)]);
    }
    assert forall|k: int| o_sz(p) <= k < s.len() implies s[k] != ' ' by {
        assert(s[k] == s.subrange(o_sz(p), s.len() as int)[k - o_sz(p)]);
    }
}

/// The decomposition of a line into fields is unique.
pub proof fn lemma_log_line_unique(s: Seq<char>, p1: LogFields, p2: LogFields)
    requires
        is_log_line(s, p1),
        is_log_line(s, p2),
    ensures
        p1 == p2,
{
    lemma_line_shape(s, p1);
    lemma_line_shape(s, p2);
    lemma_first_at_unique(s, 0, ' ', o_sp1(p1), o_sp1(p2));
    lemma_first_at_unique(s, o_id(p1), ' ', o_sp2(p1), o_sp2(p2));
    lemma_first_at_unique(s, o_us(p1), ' ', o_sp3(p1), o_sp3(p2));
    lemma_first_at_unique(s, o_tm(p1), ']', o_rb(p1), o_rb(p2));
    lemma_first_at_unique(s, o_rq(p1), '"', o_q2(p1), o_q2(p2));
    lemma_first_at_unique(s, o_st(p1), ' ', o_sp6(p1), o_sp6(p2));
    assert(p1 =~= p2);
}

/// A line that parses, parses to exactly its fields.
pub proof fn lemma_parse_of_line(s: Seq<char>, p: LogFields)
    requires
        is_log_line(s, p),
    ensures
        spec_parse(s) == Some(p),
{
    let q = choose|q: LogFields| is_log_line(s, q);
    lemma_log_line_unique(s, p, q);
}

fn all_digits_range(s: &str, from: usize, to: usize) -> (b: bool)
    requires
        from <= to <= s@.len(),
    ensures
        b == (forall|k: int| from <= k < to ==> is_digit(s@[k])),
{
    let mut i = from;
    while i < to
        invariant
            from <= i <= to <= s@.len(),
            forall|k: int| from <= k < i ==> is_digit(s@[k]),
        decreases to - i,
    {
        let c = s.get_char(i);
        let ok = c == '0' || c == '1' || c == '2' || c == '3' || c == '4' || c == '5' || c == '6'
            || c == '7' || c == '8' || c == '9';
        if !ok {
            assert(!is_digit(s@[i as int]));
            return false;
        }
        i = i + 1;
    }
    true
}

proof fn lemma_join(s: Seq<char>, x: int, y: int, z: int)
    requires
        0 <= x <= y <= z <= s.len(),
    ensures
        s.subrange(x, y) + s.subrange(y, z) == s.subrange(x, z),
{
    assert(s.subrange(x, y) + s.subrange(y, z) =~= s.subrange(x, z));
}

proof fn lemma_single(s: Seq<char>, i: int)
    requires
        0 <= i < s.len(),
    ensures
        s.subrange(i, i + 1) == seq![s[i]],
{
    assert(s.subrange(i, i + 1) =~= seq![s[i]]);
}

/// The stateless line matcher.  It holds no mutable state, so one value may
/// be constructed at startup and reused for every line.
pub struct Parser {}

impl Parser {
    pub fn new() -> (r: Parser) {
        Parser {}
    }

    /// Parse one raw line.  Returns the captured fields exactly when the
    /// line is well-formed, and nothing at all otherwise: a failed parse is
    /// an expected outcome that the caller skips, never an error.
    #[verifier::rlimit(100)]
    #[verifier::spinoff_prover]
    pub fn parse(&self, line: &str) -> (r: Option<HttpLog>)
        ensures
            match r {
                Some(log) => is_log_line(line@, log@) && spec_parse(line@) == Some(log@),
                None => forall|p: LogFields| !is_log_line(line@, p),
            },
    {
        let ghost s = line@;
        let n = line.unicode_len();
        // host: up to the first space
        let i1 = match find_char(line, 0, ' ') {
            Some(i) => i,
            None => {
                proof {
                    assert forall|p: LogFields| !is_log_line(s, p) by {
                        if is_log_line(s, p) {
                            lemma_line_shape(s, p);
                            assert(s[o_sp1(p)] == ' ');
                        }
                    }
                }
                return None;
            },
        };
        if i1 == 0 {
            proof {
                assert forall|p: LogFields| !is_log_line(s, p) by {
                    if is_log_line(s, p) {
                        lemma_line_shape(s, p);
                        lemma_first_at_unique(s, 0, ' ', i1 as int, o_sp1(p));
                    }
                }
            }
            return None;
        }
        // identity: up to the next space
        let i2 = match find_char(line, i1 + 1, ' ') {
            Some(i) => i,
            None => {
                proof {
                    assert forall|p: LogFields| !is_log_line(s, p) by {
                        if is_log_line(s, p) {
                            lemma_line_shape(s, p);
                            lemma_first_at_unique(s, 0, ' ', i1 as int, o_sp1(p));
                            assert(s[o_sp2(p)] == ' ');
                        }
                    }
                }
                return None;
            },
        };
        if i2 == i1 + 1 {
            proof {
                assert forall|p: LogFields| !is_log_line(s, p) by {
                    if is_log_line(s, p) {
                        lemma_line_shape(s, p);
                        lemma_first_at_unique(s, 0, ' ', i1 as int, o_sp1(p));
                        lemma_first_at_unique(s, o_id(p), ' ', i2 as int, o_sp2(p));
                    }
                }
            }
            return None;
        }
        // user: up to the next space
        let i3 = match find_char(line, i2 + 1, ' ') {
            Some(i) => i,
            None => {
                proof {
                    assert forall|p: LogFields| !is_log_line(s, p) by {
                        if is_log_line(s, p) {
                            lemma_line_shape(s, p);
                            lemma_first_at_unique(s, 0, ' ', i1 as int, o_sp1(p));
                            lemma_first_at_unique(s, o_id(p), ' ', i2 as int, o_sp2(p));
                            assert(s[o_sp3(p)] == ' ');
                        }
                    }
                }
                return None;
            },
        };
        if i3 == i2 + 1 {
            proof {
                assert forall|p: LogFields| !is_log_line(s, p) by {
                    if is_log_line(s, p) {
                        lemma_line_shape(s, p);
                        lemma_first_at_unique(s, 0, ' ', i1 as int, o_sp1(p));
                        lemma_first_at_unique(s, o_id(p), ' ', i2 as int, o_sp2(p));
                        lemma_first_at_unique(s, o_us(p), ' ', i3 as int, o_sp3(p));
                    }
                }
            }
            return None;
        }
        proof {
            assert forall|p: LogFields| is_log_line(s, p) implies o_sp3(p) == i3 as int by {
                lemma_line_shape(s, p);
                lemma_first_at_unique(s, 0, ' ', i1 as int, o_sp1(p));
                lemma_first_at_unique(s, o_id(p), ' ', i2 as int, o_sp2(p));
                lemma_first_at_unique(s, o_us(p), ' ', i3 as int, o_sp3(p));
            }
        }
        // '[' then the timestamp, up to the closing ']'
        if i3 + 1 >= n || line.get_char(i3 + 1) != '[' {
            proof {
                assert forall|p: LogFields| !is_log_line(s, p) by {
                    if is_log_line(s, p) {
                        lemma_line_shape(s, p);
                        assert(s[o_lb(p)] == '[');
                    }
                }
            }
            return None;
        }
        let j = match find_char(line, i3 + 2, ']') {
            Some(i) => i,
            None => {
                proof {
                    assert forall|p: LogFields| !is_log_line(s, p) by {
                        if is_log_line(s, p) {
                            lemma_line_shape(s, p);
                            assert(s[o_rb(p)] == ']');
                        }
                    }
                }
                return None;
            },
        };
        if j == i3 + 2 {
            proof {
                assert forall|p: LogFields| !is_log_line(s, p) by {
                    if is_log_line(s, p) {
                        lemma_line_shape(s, p);
                        lemma_first_at_unique(s, o_tm(p), ']', j as int, o_rb(p));
                    }
                }
            }
            return None;
        }
        proof {
            assert forall|p: LogFields| is_log_line(s, p) implies o_rb(p) == j as int by {
                lemma_line_shape(s, p);
                lemma_first_at_unique(s, o_tm(p), ']', j as int, o_rb(p));
            }
        }
        // a space, then the quoted request
        if j + 1 >= n || line.get_char(j + 1) != ' ' {
            proof {
                assert forall|p: LogFields| !is_log_line(s, p) by {
                    if is_log_line(s, p) {
                        lemma_line_shape(s, p);
                        assert(s[o_sp4(p)] == ' ');
                    }
                }
            }
            return None;
        }
        if j + 2 >= n || line.get_char(j + 2) != '"' {
            proof {
                assert forall|p: LogFields| !is_log_line(s, p) by {
                    if is_log_line(s, p) {
                        lemma_line_shape(s, p);
                        assert(s[o_q1(p)] == '"');
                    }
                }
            }
            return None;
        }
        let k = match find_char(line, j + 3, '"') {
            Some(i) => i,
            None => {
                proof {
                    assert forall|p: LogFields| !is_log_line(s, p) by {
                        if is_log_line(s, p) {
                            lemma_line_shape(s, p);
                            assert(s[o_q2(p)] == '"');
                        }
                    }
                }
                return None;
            },
        };
        if k == j + 3 {
            proof {
                assert forall|p: LogFields| !is_log_line(s, p) by {
                    if is_log_line(s, p) {
                        lemma_line_shape(s, p);
                        lemma_first_at_unique(s, o_rq(p), '"', k as int, o_q2(p));
                    }
                }
            }
            return None;
        }
        proof {
            assert forall|p: LogFields| is_log_line(s, p) implies o_q2(p) == k as int by {
                lemma_line_shape(s, p);
                lemma_first_at_unique(s, o_rq(p), '"', k as int, o_q2(p));
            }
        }
        // a space, then the status code
        if k + 1 >= n || line.get_char(k + 1) != ' ' {
            proof {
                assert forall|p: LogFields| !is_log_line(s, p) by {
                    if is_log_line(s, p) {
                        lemma_line_shape(s, p);
                        assert(s[o_sp5(p)] == ' ');
                    }
                }
            }
            return None;
        }
        let m = match find_char(line, k + 2, ' ') {
            Some(i) => i,
            None => {
                proof {
                    assert forall|p: LogFields| !is_log_line(s, p) by {
                        if is_log_line(s, p) {
                            lemma_line_shape(s, p);
                            assert(s[o_sp6(p)] == ' ');
                        }
                    }
                }
                return None;
            },
        };
        if m == k + 2 {
            proof {
                assert forall|p: LogFields| !is_log_line(s, p) by {
                    if is_log_line(s, p) {
                        lemma_line_shape(s, p);
                        lemma_first_at_unique(s, o_st(p), ' ', m as int, o_sp6(p));
                    }
                }
            }
            return None;
        }
        proof {
            assert forall|p: LogFields| is_log_line(s, p) implies o_sp6(p) == m as int by {
                lemma_line_shape(s, p);
                lemma_first_at_unique(s, o_st(p), ' ', m as int, o_sp6(p));
            }
        }
        if !all_digits_range(line, k + 2, m) {
            proof {
                assert forall|p: LogFields| !is_log_line(s, p) by {
                    if is_log_line(s, p) {
                        lemma_line_shape(s, p);
                    }
                }
            }
            return None;
        }
        // the size token runs to the end of the line
        if m + 1 >= n {
            proof {
                assert forall|p: LogFields| !is_log_line(s, p) by {
                    if is_log_line(s, p) {
                        lemma_line_shape(s, p);
                    }
                }
            }
            return None;
        }
        match find_char(line, m + 1, ' ') {
            Some(q) => {
                proof {
                    assert forall|p: LogFields| !is_log_line(s, p) by {
                        if is_log_line(s, p) {
                            lemma_line_shape(s, p);
                            assert(s[q as int] != ' ');
                        }
                    }
                }
                return None;
            },
            None => {},
        }
        let log = HttpLog {
            host: line.substring_char(0, i1).to_owned(),
            identity: line.substring_char(i1 + 1, i2).to_owned(),
            user: line.substring_char(i2 + 1, i3).to_owned(),
            time: line.substring_char(i3 + 2, j).to_owned(),
            request: line.substring_char(j + 3, k).to_owned(),
            status: line.substring_char(k + 2, m).to_owned(),
            size: line.substring_char(m + 1, n).to_owned(),
        };
        proof {
            lemma_parse_success(s, log@, i1 as int, i2 as int, i3 as int, j as int, k as int,
                m as int);
            lemma_parse_of_line(s, log@);
        }
        Some(log)
    }
}

/// Once every scan has succeeded, the captured subranges form a
/// well-formed line.
#[verifier::rlimit(50)]
proof fn lemma_parse_success(
    s: Seq<char>,
    p: LogFields,
    i1: int,
    i2: int,
    i3: int,
    j: int,
    k: int,
    m: int,
)
    requires
        0 < i1,
        s[i1] == ' ',
        i1 + 1 < i2,
        s[i2] == ' ',
        i2 + 1 < i3,
        s[i3] == ' ',
        i3 + 1 < s.len(),
        s[i3 + 1] == '[',
        i3 + 2 < j,
        j < s.len(),
        s[j] == ']',
        j + 1 < s.len(),
        s[j + 1] == ' ',
        j + 2 < s.len(),
        s[j + 2] == '"',
        j + 3 < k,
        k < s.len(),
        s[k] == '"',
        k + 1 < s.len(),
        s[k + 1] == ' ',
        k + 2 < m,
        m < s.len(),
        s[m] == ' ',
        no_char_in(s, 0, i1, ' '),
        no_char_in(s, i1 + 1, i2, ' '),
        no_char_in(s, i2 + 1, i3, ' '),
        no_char_in(s, i3 + 2, j, ']'),
        no_char_in(s, j + 3, k, '"'),
        forall|t: int| k + 2 <= t < m ==> is_digit(s[t]),
        m + 1 < s.len(),
        no_char_in(s, m + 1, s.len() as int, ' '),
        p.host == s.subrange(0, i1),
        p.identity == s.subrange(i1 + 1, i2),
        p.user == s.subrange(i2 + 1, i3),
        p.time == s.subrange(i3 + 2, j),
        p.request == s.subrange(j + 3, k),
        p.status == s.subrange(k + 2, m),
        p.size == s.subrange(m + 1, s.len() as int),
    ensures
        is_log_line(s, p),
{
    let n = s.len() as int;
    assert(p.host.len() == i1);
    assert(p.identity.len() == i2 - (i1 + 1));
    assert(p.user.len() == i3 - (i2 + 1));
    assert(p.time.len() == j - (i3 + 2));
    assert(p.request.len() == k - (j + 3));
    assert(p.status.len() == m - (k + 2));
    assert(p.size.len() == n - (m + 1));
    assert(o_sp1(p) == i1);
    assert(o_sp2(p) == i2);
    assert(o_sp3(p) == i3);
    assert(o_rb(p) == j);
    assert(o_q2(p) == k);
    assert(o_sp6(p) == m);
    assert(o_end(p) == n);
    assert(fields_wf(p)) by {
        assert forall|t: int| 0 <= t < p.host.len() implies p.host[t] != ' ' by {
            assert(p.host[t] == s[t]);
        }
        assert forall|t: int| 0 <= t < p.identity.len() implies p.identity[t] != ' ' by {
            assert(p.identity[t] == s[i1 + 1 + t]);
        }
        assert forall|t: int| 0 <= t < p.user.len() implies p.user[t] != ' ' by {
            assert(p.user[t] == s[i2 + 1 + t]);
        }
        assert forall|t: int| 0 <= t < p.time.len() implies p.time[t] != ']' by {
            assert(p.time[t] == s[i3 + 2 + t]);
        }
        assert forall|t: int| 0 <= t < p.request.len() implies p.request[t] != '"' by {
            assert(p.request[t] == s[j + 3 + t]);
        }
        assert forall|t: int| 0 <= t < p.status.len() implies is_digit(p.status[t]) by {
            assert(p.status[t] == s[k + 2 + t]);
        }
        assert forall|t: int| 0 <= t < p.size.len() implies p.size[t] != ' ' by {
            assert(p.size[t] == s[m + 1 + t]);
        }
    }
}

/// A well-formed line is exactly the serialization of its fields.
#[verifier::rlimit(100)]
#[verifier::spinoff_prover]
pub proof fn lemma_log_line_concat(s: Seq<char>, p: LogFields)
    requires
        is_log_line(s, p),
    ensures
        s == log_line_of(p),
{
    let n = s.len() as int;
    let i1 = o_sp1(p);
    let i2 = o_sp2(p);
    let i3 = o_sp3(p);
    let j = o_rb(p);
    let k = o_q2(p);
    let m = o_sp6(p);
    lemma_single(s, m);
    assert(seq![s[m]] =~= seq![' ']);
    lemma_join(s, m, m + 1, n);
    assert(seq![' '] + p.size == s.subrange(m, n));
    lemma_join(s, k + 2, m, n);
    assert(p.status + (seq![' '] + p.size) == s.subrange(k + 2, n));
    lemma_single(s, k + 1);
    assert(seq![s[k + 1]] =~= seq![' ']);
    lemma_join(s, k + 1, k + 2, n);
    lemma_single(s, k);
    assert(seq![s[k]] =~= seq!['"']);
    lemma_join(s, k, k + 1, n);
    lemma_join(s, j + 3, k, n);
    assert(p.request + (seq!['"'] + (seq![' '] + (p.status + (seq![' '] + p.size))))
        == s.subrange(j + 3, n));
    lemma_single(s, j + 2);
    assert(seq![s[j + 2]] =~= seq!['"']);
    lemma_join(s, j + 2, j + 3, n);
    lemma_single(s, j + 1);
    assert(seq![s[j + 1]] =~= seq![' ']);
    lemma_join(s, j + 1, j + 2, n);
    lemma_single(s, j);
    assert(seq![s[j]] =~= seq![']']);
    lemma_join(s, j, j + 1, n);
    lemma_join(s, i3 + 2, j, n);
    assert(p.time + (seq![']'] + (seq![' '] + (seq!['"'] + (p.request + (seq!['"'] + (seq![' ']
        + (p.status + (seq![' '] + p.size)))))))) == s.subrange(i3 + 2, n));
    lemma_single(s, i3 + 1);
    assert(seq![s[i3 + 1]] =~= seq!['[']);
    lemma_join(s, i3 + 1, i3 + 2, n);
    lemma_single(s, i3);
    assert(seq![s[i3]] =~= seq![' ']);
    lemma_join(s, i3, i3 + 1, n);
    lemma_join(s, i2 + 1, i3, n);
    lemma_single(s, i2);
    assert(seq![s[i2]] =~= seq![' ']);
    lemma_join(s, i2, i2 + 1, n);
    lemma_join(s, i1 + 1, i2, n);
    lemma_single(s, i1);
    assert(seq![s[i1]] =~= seq![' ']);
    lemma_join(s, i1, i1 + 1, n);
    lemma_join(s, 0, i1, n);
    assert(s.subrange(0, n) =~= s);
    assert(s == log_line_of(p));
}

impl HttpLog {
    /// Re-serialize the captured fields into the line they came from.
    pub fn serialize(&self) -> (r: String)
        ensures
            r@ == log_line_of(self@),
    {
        proof {
            reveal_strlit(" ");
            reveal_strlit(" [");
            reveal_strlit("] \"");
            reveal_strlit("\" ");
        }
        let mut r = self.host.clone();
        r.append(" ");
        r.append(self.identity.as_str());
        r.append(" ");
        r.append(self.user.as_str());
        r.append(" [");
        r.append(self.time.as_str());
        r.append("] \"");
        r.append(self.request.as_str());
        r.append("\" ");
        r.append(self.status.as_str());
        r.append(" ");
        r.append(self.size.as_str());
        proof {
            assert(" "@ =~= seq![' ']);
            assert(" ["@ =~= seq![' ', '[']);
            assert("] \""@ =~= seq![']', ' ', '"']);
            assert("\" "@ =~= seq!['"', ' ']);
            assert(seq![' ', '['] =~= seq![' '] + seq!['[']);
            assert(seq![']', ' ', '"'] =~= seq![']'] + (seq![' '] + seq!['"']));
            assert(seq!['"', ' '] =~= seq!['"'] + seq![' ']);
            assert(r@ =~= log_line_of(self@));
        }
        r
    }
}

/// Round trip: for every well-formed line, parsing and then re-serializing
/// the captured fields reproduces the original line exactly.
pub proof fn lemma_parse_round_trip(s: Seq<char>, p: LogFields)
    requires
        is_log_line(s, p),
    ensures
        spec_parse(s) == Some(p),
        log_line_of(p) == s,
{
    lemma_parse_of_line(s, p);
    lemma_log_line_concat(s, p);
}

} // verus!
