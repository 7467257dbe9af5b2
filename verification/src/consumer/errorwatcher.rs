//! The error-rate consumer: counts hits and client/server error responses,
//! and reports each observed error class as a percentage of all hits.
use crate::consumer::Consumer;
use crate::parser::HttpLog;
use crate::text::dec_digits;
use crate::text::dec_two_digits;
use crate::text::u64_to_dec;
use crate::text::u64_to_two_digits;
use vstd::arithmetic::div_mod::lemma_div_is_ordered;
use vstd::arithmetic::div_mod::lemma_div_multiples_vanish;
use vstd::arithmetic::mul::lemma_mul_inequality;
use vstd::prelude::*;
use vstd::string::StrSliceExecFns;
use vstd::string::StringExecFns;

verus! {

/// The mathematical content of the watcher's state.
#[verifier::ext_equal]
pub ghost struct WatcherView {
    pub total: u64,
    pub err4: u64,
    pub err5: u64,
}

/// One ingestion step: one more hit, and one more error of the class named
/// by the first digit of the status code, if any.  At the (unreachable in
/// practice) counter ceiling the record is counted as a no-op, so that
/// ingestion never fails.
pub open spec fn watcher_ingest(v: WatcherView, status: Seq<char>) -> WatcherView {
    if v.total == u64::MAX {
        v
    } else if status.len() > 0 && status[0] == '4' {
        WatcherView { total: (v.total + 1) as u64, err4: (v.err4 + 1) as u64, err5: v.err5 }
    } else if status.len() > 0 && status[0] == '5' {
        WatcherView { total: (v.total + 1) as u64, err4: v.err4, err5: (v.err5 + 1) as u64 }
    } else {
        WatcherView { total: (v.total + 1) as u64, err4: v.err4, err5: v.err5 }
    }
}

/// `err / total` as a percentage in hundredths: the digits before and after
/// the decimal point of a two-decimal percentage.
pub open spec fn percent_hundredths(err: nat, total: nat) -> nat
    recommends
        total > 0,
{
    err * 10000 / total
}

/// The two-decimal rendering "II.FF" of `err / total` as a percentage.
pub open spec fn rate_digits(err: nat, total: nat) -> Seq<char>
    recommends
        total > 0,
{
    dec_digits(percent_hundredths(err, total) / 100) + "."@ + dec_two_digits(
        percent_hundredths(err, total) % 100,
    )
}

/// The full report: a line for each error class that has been observed, and
/// nothing for a class (or for everything) before its first hit.
pub open spec fn watcher_report(v: WatcherView) -> Seq<char> {
    "  Errors rate:\n"@ + (if v.err4 > 0 {
        "    4xx: "@ + rate_digits(v.err4 as nat, v.total as nat) + "%\n"@
    } else {
        Seq::<char>::empty()
    }) + (if v.err5 > 0 {
        "    5xx: "@ + rate_digits(v.err5 as nat, v.total as nat) + "%\n"@
    } else {
        Seq::<char>::empty()
    })
}

proof fn lemma_percent_bounded(err: nat, total: nat)
    requires
        0 < total,
        err <= total,
    ensures
        percent_hundredths(err, total) <= 10000,
{
    lemma_mul_inequality(err as int, total as int, 10000);
    lemma_div_is_ordered(err as int * 10000, total as int * 10000, total as int);
    lemma_div_multiples_vanish(10000, total as int);
}

/// Render `err / total` as a two-decimal percentage.
fn rate_string(err: u64, total: u64) -> (r: String)
    requires
        0 < total,
        err <= total,
    ensures
        r@ == rate_digits(err as nat, total as nat),
{
    proof {
        lemma_percent_bounded(err as nat, total as nat);
    }
    let hundredths: u64 = ((err as u128) * 10000 / (total as u128)) as u64;
    let mut r = u64_to_dec(hundredths / 100);
    r.append(".");
    r.append(u64_to_two_digits(hundredths % 100).as_str());
    r
}

/// Counts every hit and every 4xx/5xx response seen so far.
pub struct ErrorWatcher {
    total_hits: u64,
    hits_4xx: u64,
    hits_5xx: u64,
}

impl View for ErrorWatcher {
    type V = WatcherView;

    closed spec fn view(&self) -> WatcherView {
        WatcherView { total: self.total_hits, err4: self.hits_4xx, err5: self.hits_5xx }
    }
}

impl ErrorWatcher {
    pub fn new() -> (r: ErrorWatcher)
        ensures
            r@ == (WatcherView { total: 0, err4: 0, err5: 0 }),
            r.wf(),
    {
        ErrorWatcher { total_hits: 0, hits_4xx: 0, hits_5xx: 0 }
    }

    pub fn total_hits(&self) -> (r: u64)
        ensures
            r == self@.total,
    {
        self.total_hits
    }

    /// The 4xx count, present only once such an error has been observed.
    pub fn count_4xx(&self) -> (r: Option<u64>)
        ensures
            r == (if self@.err4 > 0 {
                Some(self@.err4)
            } else {
                None::<u64>
            }),
    {
        if self.hits_4xx > 0 {
            Some(self.hits_4xx)
        } else {
            None
        }
    }

    /// The 5xx count, present only once such an error has been observed.
    pub fn count_5xx(&self) -> (r: Option<u64>)
        ensures
            r == (if self@.err5 > 0 {
                Some(self@.err5)
            } else {
                None::<u64>
            }),
    {
        if self.hits_5xx > 0 {
            Some(self.hits_5xx)
        } else {
            None
        }
    }
}

impl Consumer for ErrorWatcher {
    open spec fn wf(&self) -> bool {
        self@.err4 + self@.err5 <= self@.total
    }

    fn ingest(&mut self, http_log: &HttpLog)
        ensures
            final(self)@ == watcher_ingest(old(self)@, http_log@.status),
    {
        if self.total_hits == u64::MAX {
            return ;
        }
        self.total_hits = self.total_hits + 1;
        let status = http_log.status.as_str();
        if !status.is_empty() {
            let c = status.get_char(0);
            if c == '4' {
                self.hits_4xx = self.hits_4xx + 1;
            } else if c == '5' {
                self.hits_5xx = self.hits_5xx + 1;
            }
        }
    }

    fn report(&self) -> (r: String)
        ensures
            r@ == watcher_report(self@),
    {
        let mut r = String::new();
        r.append("  Errors rate:\n");
        if self.hits_4xx > 0 {
            r.append("    4xx: ");
            r.append(rate_string(self.hits_4xx, self.total_hits).as_str());
            r.append("%\n");
        }
        if self.hits_5xx > 0 {
            r.append("    5xx: ");
            r.append(rate_string(self.hits_5xx, self.total_hits).as_str());
            r.append("%\n");
        }
        proof {
            assert(r@ =~= watcher_report(self@));
        }
        r
    }
}

} // verus!
