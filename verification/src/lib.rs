//! A live access-log monitor: parses appended log lines, fans each record
//! out to a set of statistics consumers, and raises or recovers traffic
//! alerts from a sliding-window request rate.
//!
//! The crate holds the engine alone: the line parser, the consumers and
//! their aggregate state, and the per-cycle batch step.  Reading the log
//! file, sleeping between polls and printing reports belong to the caller.
use vstd::prelude::*;

pub mod consumer;
pub mod parser;
pub mod text;

use crate::consumer::alerter::now_epoch_seconds;
use crate::consumer::alerter::Alerter;
use crate::consumer::alerter::AlerterView;
use crate::consumer::alerter::alerter_ingest;
use crate::consumer::alerter::alerter_report;
use crate::consumer::alerter::alerter_step;
use crate::consumer::alerter::AlertState;
use crate::consumer::alerter::CycleOutcome;
use crate::consumer::errorwatcher::watcher_ingest;
use crate::consumer::errorwatcher::watcher_report;
use crate::consumer::errorwatcher::ErrorWatcher;
use crate::consumer::errorwatcher::WatcherView;
use crate::consumer::ranker::bump;
use crate::consumer::ranker::ranker_report;
use crate::consumer::ranker::section_of;
use crate::consumer::ranker::Ranker;
use crate::consumer::Consumer;
use crate::parser::spec_parse;
use crate::parser::LogFields;
use crate::parser::Parser;
use crate::text::find_char;
use crate::text::first_index;
use crate::text::lemma_first_at_index;
use crate::text::lemma_no_char_index;
use vstd::string::StrSliceExecFns;
use vstd::string::StringExecFns;

verus! {

/// Startup configuration: the path of the access log to monitor.
#[derive(Debug)]
pub struct Config {
    pub filename: String,
}

/// The contents of the log source split at newlines; every segment is a
/// candidate line, and segments that fail to parse are skipped.
pub open spec fn lines_of(s: Seq<char>) -> Seq<Seq<char>>
    decreases s.len(),
{
    let i = first_index(s, 0, '\n');
    if 0 <= i && i < s.len() {
        seq![s.subrange(0, i)] + lines_of(s.subrange(i + 1, s.len() as int))
    } else {
        seq![s]
    }
}

/// The views of a sequence of strings.
pub open spec fn strs(v: Seq<String>) -> Seq<Seq<char>> {
    v.map_values(|s: String| s@)
}

/// The mathematical content of the whole engine.
#[verifier::ext_equal]
pub ghost struct MonitorView {
    pub watcher: WatcherView,
    pub sections: Seq<(Seq<char>, u64)>,
    pub hosts: Seq<(Seq<char>, u64)>,
    pub max_rank: int,
    pub alerter: AlerterView,
}

/// Fan one parsed record out to every consumer, in registration order.
pub open spec fn monitor_ingest(m: MonitorView, log: LogFields) -> MonitorView {
    MonitorView {
        watcher: watcher_ingest(m.watcher, log.status),
        sections: bump(m.sections, section_of(log.request)),
        hosts: if log.host == seq!['-'] {
            m.hosts
        } else {
            bump(m.hosts, log.host)
        },
        max_rank: m.max_rank,
        alerter: alerter_ingest(m.alerter, log.time),
    }
}

/// One candidate line: a well-formed one reaches every consumer, and a
/// malformed one changes no consumer state at all.
pub open spec fn monitor_handle_line(m: MonitorView, line: Seq<char>) -> MonitorView {
    match spec_parse(line) {
        Some(p) => monitor_ingest(m, p),
        None => m,
    }
}

/// A malformed line is a proven no-op for every consumer.
pub proof fn lemma_unparsable_line_is_noop(m: MonitorView, line: Seq<char>)
    requires
        spec_parse(line) is None,
    ensures
        monitor_handle_line(m, line) == m,
{
}

/// A batch of candidate lines, oldest first.
pub open spec fn monitor_handle_batch(m: MonitorView, ls: Seq<Seq<char>>) -> MonitorView
    decreases ls.len(),
{
    if ls.len() == 0 {
        m
    } else {
        monitor_handle_line(monitor_handle_batch(m, ls.drop_last()), ls.last())
    }
}

/// The combined report of every consumer, in registration order.
pub open spec fn monitor_report(m: MonitorView) -> Seq<char> {
    watcher_report(m.watcher) + ranker_report(m.sections, m.hosts, m.max_rank) + alerter_report(
        m.alerter,
    )
}

/// One full cycle: ingest a batch, then run the alerter's report cycle at
/// instant `now`.
pub open spec fn monitor_cycle(m: MonitorView, ls: Seq<Seq<char>>, now: i64) -> (
    MonitorView,
    CycleOutcome,
) {
    let m1 = monitor_handle_batch(m, ls);
    let stepped = alerter_step(m1.alerter, now);
    (MonitorView { alerter: stepped.0, ..m1 }, stepped.1)
}

/// Split the newly read contents into candidate lines.
fn split_lines(contents: &str) -> (r: Vec<String>)
    ensures
        strs(r@) == lines_of(contents@),
{
    let ghost whole = contents@;
    let n = contents.unicode_len();
    let mut out: Vec<String> = Vec::new();
    let mut pos: usize = 0;
    proof {
        assert(strs(out@) =~= Seq::<Seq<char>>::empty());
        assert(whole.subrange(0, n as int) =~= whole);
    }
    loop
        invariant_except_break
            strs(out@) + lines_of(whole.subrange(pos as int, n as int)) == lines_of(whole),
        invariant
            pos <= n,
            n == whole.len(),
            whole == contents@,
        ensures
            strs(out@) == lines_of(whole),
        decreases n - pos,
    {
        let ghost rem = whole.subrange(pos as int, n as int);
        match find_char(contents, pos, '\n') {
            Some(i) => {
                proof {
                    assert(rem[i - pos] == whole[i as int]);
                    assert(crate::text::first_at(rem, 0, '\n', i - pos)) by {
                        assert forall|k: int| 0 <= k < i - pos implies rem[k] != '\n' by {
                            assert(rem[k] == whole[pos + k]);
                        }
                    }
                    lemma_first_at_index(rem, 0, '\n', i - pos);
                    assert(rem.subrange(0, i - pos) =~= whole.subrange(pos as int, i as int));
                    assert(rem.subrange(i - pos + 1, rem.len() as int) =~= whole.subrange(
                        i as int + 1,
                        n as int,
                    ));
                    assert(lines_of(rem) == seq![whole.subrange(pos as int, i as int)] + lines_of(
                        whole.subrange(i as int + 1, n as int),
                    ));
                }
                let line = contents.substring_char(pos, i).to_owned();
                let ghost lg = line;
                let ghost prev = out@;
                out.push(line);
                proof {
                    assert(strs(out@) =~= strs(prev).push(lg@));
                    assert(strs(out@) + lines_of(whole.subrange(i as int + 1, n as int))
                        =~= lines_of(whole));
                }
                pos = i + 1;
            },
            None => {
                proof {
                    assert forall|k: int| 0 <= k < rem.len() implies rem[k] != '\n' by {
                        assert(rem[k] == whole[pos + k]);
                    }
                    lemma_no_char_index(rem, 0, '\n');
                    assert(lines_of(rem) == seq![rem]);
                }
                let line = contents.substring_char(pos, n).to_owned();
                let ghost lg = line;
                let ghost prev = out@;
                out.push(line);
                proof {
                    assert(strs(out@) =~= strs(prev).push(lg@));
                    assert(strs(out@) =~= lines_of(whole));
                }
                break ;
            },
        }
    }
    out
}

/// The ingestion engine: the parser and every registered consumer, fanned
/// out to in a fixed order (error rate, ranker, alerter).
pub struct Monitor {
    parser: Parser,
    error_watcher: ErrorWatcher,
    ranker: Ranker,
    alerter: Alerter,
}

impl View for Monitor {
    type V = MonitorView;

    closed spec fn view(&self) -> MonitorView {
        MonitorView {
            watcher: self.error_watcher@,
            sections: self.ranker.sections(),
            hosts: self.ranker.hosts(),
            max_rank: self.ranker.max_rank(),
            alerter: self.alerter@,
        }
    }
}

impl Monitor {
    pub closed spec fn wf(&self) -> bool {
        self.error_watcher.wf() && self.ranker.wf() && self.alerter.wf()
    }

    /// A fresh engine with empty aggregates and a `Normal` alerter.
    pub fn new(threshold: u32, window_secs: u32) -> (r: Monitor)
        requires
            window_secs >= 1,
        ensures
            r@ == (MonitorView {
                watcher: WatcherView { total: 0, err4: 0, err5: 0 },
                sections: Seq::<(Seq<char>, u64)>::empty(),
                hosts: Seq::<(Seq<char>, u64)>::empty(),
                max_rank: 5,
                alerter: AlerterView {
                    events: Seq::<i64>::empty(),
                    alert: AlertState::Normal,
                    total: 0,
                    threshold,
                    window: window_secs,
                },
            }),
            r.wf(),
    {
        Monitor {
            parser: Parser::new(),
            error_watcher: ErrorWatcher::new(),
            ranker: Ranker::new(),
            alerter: Alerter::new(threshold, window_secs),
        }
    }

    /// Parse one candidate line and, if it is well-formed, hand the record
    /// to every consumer; a malformed line changes nothing.
    pub fn handle_line(&mut self, line: &str)
        requires
            old(self).wf(),
        ensures
            final(self)@ == monitor_handle_line(old(self)@, line@),
            final(self).wf(),
    {
        match self.parser.parse(line) {
            Some(http_log) => {
                self.error_watcher.ingest(&http_log);
                self.ranker.ingest(&http_log);
                self.alerter.ingest(&http_log);
                proof {
                    assert(self@ =~= monitor_handle_line(old(self)@, line@));
                }
            },
            None => {
                proof {
                    assert(spec_parse(line@) is None);
                }
            },
        }
    }

    /// Feed every line of the newly read contents through the parser and
    /// the consumers, skipping the malformed ones.
    #[verifier::rlimit(50)]
    pub fn handle_batch(&mut self, contents: &str)
        requires
            old(self).wf(),
        ensures
            final(self)@ == monitor_handle_batch(old(self)@, lines_of(contents@)),
            final(self).wf(),
    {
        let lines = split_lines(contents);
        let ghost ls = strs(lines@);
        let mut i: usize = 0;
        proof {
            assert(ls.subrange(0, 0) =~= Seq::<Seq<char>>::empty());
        }
        while i < lines.len()
            invariant
                i <= lines.len(),
                ls == strs(lines@),
                self@ == monitor_handle_batch(old(self)@, ls.subrange(0, i as int)),
                self.wf(),
            decreases lines.len() - i,
        {
            self.handle_line(lines[i].as_str());
            proof {
                let cur = ls.subrange(0, i as int + 1);
                assert(cur.drop_last() =~= ls.subrange(0, i as int));
                assert(cur.last() == ls[i as int]);
            }
            i = i + 1;
        }
        proof {
            assert(ls.subrange(0, ls.len() as int) =~= ls);
        }
    }

    /// Run the alerter's report cycle at instant `now`.
    pub fn advance_alerter(&mut self, now: i64) -> (o: CycleOutcome)
        requires
            old(self).wf(),
        ensures
            final(self)@ == (MonitorView { alerter: alerter_step(old(self)@.alerter, now).0, ..old(
                self,
            )@ }),
            o == alerter_step(old(self)@.alerter, now).1,
            final(self).wf(),
    {
        let o = self.alerter.advance(now);
        proof {
            assert(self@ =~= (MonitorView { alerter: alerter_step(old(self)@.alerter, now).0, ..old(
                self,
            )@ }));
        }
        o
    }

    /// Every consumer's report, concatenated in registration order.  A pure
    /// read: calling it any number of times changes nothing and always
    /// yields the same text for the same state.
    pub fn report_all(&self) -> (r: String)
        requires
            self.wf(),
        ensures
            r@ == monitor_report(self@),
    {
        let mut r = self.error_watcher.report();
        r.append(self.ranker.report().as_str());
        r.append(self.alerter.report().as_str());
        r
    }

    /// One polling cycle: ingest the newly read contents, run the alerter's
    /// report cycle at the present instant (read from the machine clock,
    /// hence the existential), and return the combined report.
    pub fn run_cycle(&mut self, contents: &str) -> (r: String)
        requires
            old(self).wf(),
        ensures
            exists|now: i64|
                #![auto]
                final(self)@ == monitor_cycle(old(self)@, lines_of(contents@), now).0,
            r@ == monitor_report(final(self)@),
            final(self).wf(),
    {
        self.handle_batch(contents);
        let now = now_epoch_seconds();
        self.alerter.advance(now);
        let r = self.report_all();
        proof {
            assert(self@ =~= monitor_cycle(old(self)@, lines_of(contents@), now).0);
        }
        r
    }
}

/// Reporting is idempotent: with no ingestion in between, two reports of
/// the same state are identical, and reporting moves no state.
pub proof fn lemma_report_idempotent(m: MonitorView, r1: Seq<char>, r2: Seq<char>)
    requires
        r1 == monitor_report(m),
        r2 == monitor_report(m),
    ensures
        r1 == r2,
{
}

} // verus!
