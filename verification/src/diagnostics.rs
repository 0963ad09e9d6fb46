//! Collected warnings and errors: each distinct report is kept once, in the order it came, up
//! to a fixed number; reports past that are only counted.

use vstd::prelude::*;
use crate::text::{push_char, push_str};

verus! {

/// How many reports are kept before further ones are only counted.
pub const MAX_RECORDED: usize = 1024;

#[derive(Copy, Clone, Debug, PartialEq, Eq, Hash, Structural)]
pub enum Severity {
    /// Rendered, but degraded.
    Warning,
    /// Substituted or skipped.
    Error,
}

/// Where in the program a report is made. Reports from different sites are told apart even
/// when their subject and key agree.
#[derive(Clone, Debug, PartialEq, Eq, Hash)]
pub struct Site {
    pub file: String,
    pub line: u32,
    pub column: u32,
}

/// One report.
#[derive(Clone, Debug, PartialEq, Eq, Hash)]
pub struct Diagnostic {
    pub severity: Severity,
    pub subject: String,
    pub message: String,
}

/// The abstract content of a report.
pub struct DiagnosticView {
    pub severity: Severity,
    pub subject: Seq<char>,
    pub message: Seq<char>,
}

/// A site by value: its file, line and column.
pub type SiteView = (Seq<char>, u32, u32);

impl View for Site {
    type V = SiteView;

    open spec fn view(&self) -> SiteView {
        (self.file@, self.line, self.column)
    }
}

impl Site {
    /// The site at the given file, line and column.
    pub fn at(file: &str, line: u32, column: u32) -> (site: Site)
        ensures
            site@ == (file@, line, column),
    {
        Site { file: file.to_owned(), line, column }
    }
}

/// What identifies a report for deduplication: its severity, its site, and its subject and
/// key joined by a NUL character.
pub type ReportKey = (Severity, SiteView, Seq<char>);

pub open spec fn report_key(severity: Severity, site: SiteView, subject: Seq<char>, key: Seq<char>) -> ReportKey {
    (severity, site, subject + seq!['\0'] + key)
}

pub open spec fn diagnostic_view(d: Diagnostic) -> DiagnosticView {
    DiagnosticView { severity: d.severity, subject: d.subject@, message: d.message@ }
}

/// `warning: <subject>: <message>` or `error: <subject>: <message>`.
pub open spec fn diagnostic_text(d: DiagnosticView) -> Seq<char> {
    (match d.severity {
        Severity::Warning => "warning"@,
        Severity::Error => "error"@,
    }) + ": "@ + d.subject + ": "@ + d.message
}

impl Diagnostic {
    /// The report as one line of text (see [`diagnostic_text`]).
    pub fn to_string(&self) -> (out: String)
        ensures
            out@ == diagnostic_text(diagnostic_view(*self)),
    {
        let mut out = String::new();
        match self.severity {
            Severity::Warning => push_str(&mut out, "warning"),
            Severity::Error => push_str(&mut out, "error"),
        }
        push_str(&mut out, ": ");
        push_str(&mut out, self.subject.as_str());
        push_str(&mut out, ": ");
        push_str(&mut out, self.message.as_str());
        out
    }

    fn duplicate(&self) -> (d: Diagnostic)
        ensures
            d == *self,
    {
        Diagnostic { severity: self.severity, subject: self.subject.clone(), message: self.message.clone() }
    }
}

/// The reports kept so far, the reports already seen, and how many were dropped.
pub struct DiagnosticsView {
    pub ordered: Seq<DiagnosticView>,
    pub seen: Set<ReportKey>,
    pub suppressed: nat,
}

/// A collector of reports.
pub struct Diagnostics {
    seen: Vec<(Severity, Site, String)>,
    ordered: Vec<Diagnostic>,
    suppressed: usize,
}

impl View for Diagnostics {
    type V = DiagnosticsView;

    closed spec fn view(&self) -> DiagnosticsView {
        DiagnosticsView {
            ordered: self.ordered@.map_values(|d: Diagnostic| diagnostic_view(d)),
            seen: Set::new(|k: ReportKey| exists|i: int| 0 <= i < self.seen@.len() && seen_key(#[trigger] self.seen@[i]) == k),
            suppressed: self.suppressed as nat,
        }
    }
}

pub open spec fn seen_key(e: (Severity, Site, String)) -> ReportKey {
    (e.0, (e.1.file@, e.1.line, e.1.column), e.2@)
}

/// What recording a report does: a report already seen changes nothing; past the limit it is
/// only counted (the count wraps like `usize` addition); otherwise it is appended and marked
/// as seen.
pub open spec fn recorded(
    before: DiagnosticsView,
    severity: Severity,
    site: SiteView,
    subject: Seq<char>,
    key: Seq<char>,
    message: Seq<char>,
) -> DiagnosticsView {
    let k = report_key(severity, site, subject, key);
    if before.seen.contains(k) {
        before
    } else if before.ordered.len() >= MAX_RECORDED {
        DiagnosticsView {
            suppressed: if before.suppressed == usize::MAX { 0 } else { before.suppressed + 1 },
            ..before
        }
    } else {
        DiagnosticsView {
            ordered: before.ordered.push(DiagnosticView { severity, subject, message }),
            seen: before.seen.insert(k),
            suppressed: before.suppressed,
        }
    }
}

impl Diagnostics {
    /// No more than [`MAX_RECORDED`] reports are kept.
    pub open spec fn wf(&self) -> bool {
        self@.ordered.len() <= MAX_RECORDED
    }

    /// An empty collector.
    pub fn new() -> (d: Diagnostics)
        ensures
            d.wf(),
            d@.ordered.len() == 0,
            d@.seen == Set::<ReportKey>::empty(),
            d@.suppressed == 0,
    {
        let d = Diagnostics { seen: Vec::new(), ordered: Vec::new(), suppressed: 0 };
        assert(d@.seen =~= Set::<ReportKey>::empty());
        d
    }

    fn find_seen(&self, severity: Severity, site: &Site, buf: &String) -> (found: bool)
        ensures
            found == self@.seen.contains((severity, (site.file@, site.line, site.column), buf@)),
    {
        let mut i: usize = 0;
        while i < self.seen.len()
            invariant
                i <= self.seen@.len(),
                forall|j: int| 0 <= j < i ==> seen_key(#[trigger] self.seen@[j]) != (severity, (site.file@, site.line, site.column), buf@),
            decreases self.seen.len() - i,
        {
            let e = &self.seen[i];
            if e.0 == severity && e.1.line == site.line && e.1.column == site.column && e.1.file == site.file && e.2 == *buf {
                assert(seen_key(self.seen@[i as int]) == (severity, (site.file@, site.line, site.column), buf@));
                return true;
            }
            i = i + 1;
        }
        false
    }

    /// Records a report (see [`recorded`]).
    pub fn record(&mut self, severity: Severity, site: &Site, subject: &str, key: &str, message: String)
        requires
            old(self).wf(),
        ensures
            final(self).wf(),
            final(self)@ == recorded(old(self)@, severity, site@, subject@, key@, message@),
    {
        let mut buf = String::new();
        push_str(&mut buf, subject);
        push_char(&mut buf, '\0');
        push_str(&mut buf, key);
        proof {
            assert(buf@ =~= subject@ + seq!['\0'] + key@);
        }
        if self.find_seen(severity, site, &buf) {
            return;
        }
        if self.ordered.len() >= MAX_RECORDED {
            self.suppressed = self.suppressed.wrapping_add(1);
            proof {
                assert(self@.seen =~= old(self)@.seen);
                assert(self@.ordered =~= old(self)@.ordered);
            }
            return;
        }
        let ghost before = self@;
        self.ordered.push(Diagnostic { severity, subject: String::from_str(subject), message });
        let site_copy = Site { file: site.file.clone(), line: site.line, column: site.column };
        self.seen.push((severity, site_copy, buf));
        proof {
            let k = report_key(severity, site@, subject@, key@);
            assert(self@.ordered =~= before.ordered.push(DiagnosticView { severity, subject: subject@, message: message@ }));
            assert forall|x: ReportKey| self@.seen.contains(x) == before.seen.insert(k).contains(x) by {
                if x == k {
                    assert(seen_key(self.seen@[self.seen@.len() - 1]) == k);
                }
                if before.seen.contains(x) {
                    let i = choose|i: int| 0 <= i < old(self).seen@.len() && seen_key(#[trigger] old(self).seen@[i]) == x;
                    assert(self.seen@[i] == old(self).seen@[i]);
                }
                if self@.seen.contains(x) && x != k {
                    let i = choose|i: int| 0 <= i < self.seen@.len() && seen_key(#[trigger] self.seen@[i]) == x;
                    assert(i < old(self).seen@.len());
                    assert(self.seen@[i] == old(self).seen@[i]);
                }
            }
            assert(self@.seen =~= before.seen.insert(k));
        }
    }

    /// A degraded but rendered result.
    pub fn warn(&mut self, site: &Site, subject: &str, message: String)
        requires
            old(self).wf(),
        ensures
            final(self).wf(),
            final(self)@ == recorded(old(self)@, Severity::Warning, site@, subject@, Seq::empty(), message@),
    {
        self.record(Severity::Warning, site, subject, "", message);
        proof {
            reveal_strlit("");
        }
    }

    /// A degraded but rendered result, told apart from others of the same subject by a key.
    pub fn warn_keyed(&mut self, site: &Site, subject: &str, key: &str, message: String)
        requires
            old(self).wf(),
        ensures
            final(self).wf(),
            final(self)@ == recorded(old(self)@, Severity::Warning, site@, subject@, key@, message@),
    {
        self.record(Severity::Warning, site, subject, key, message);
    }

    /// Something was substituted or skipped.
    pub fn error(&mut self, site: &Site, subject: &str, message: String)
        requires
            old(self).wf(),
        ensures
            final(self).wf(),
            final(self)@ == recorded(old(self)@, Severity::Error, site@, subject@, Seq::empty(), message@),
    {
        self.record(Severity::Error, site, subject, "", message);
        proof {
            reveal_strlit("");
        }
    }

    /// The reports kept so far, in order.
    pub fn snapshot(&self) -> (out: Vec<Diagnostic>)
        ensures
            out@.map_values(|d: Diagnostic| diagnostic_view(d)) == self@.ordered,
    {
        let mut out: Vec<Diagnostic> = Vec::new();
        let mut i: usize = 0;
        while i < self.ordered.len()
            invariant
                i <= self.ordered@.len(),
                out@ == self.ordered@.take(i as int),
            decreases self.ordered.len() - i,
        {
            out.push(self.ordered[i].duplicate());
            proof {
                assert(self.ordered@.take(i as int + 1) =~= self.ordered@.take(i as int).push(self.ordered@[i as int]));
            }
            i = i + 1;
        }
        proof {
            assert(self.ordered@.take(self.ordered@.len() as int) =~= self.ordered@);
            assert(out@.map_values(|d: Diagnostic| diagnostic_view(d)) =~= self@.ordered);
        }
        out
    }

    /// Takes the reports kept so far and starts over: nothing is seen or counted afterwards.
    pub fn drain(&mut self) -> (out: Vec<Diagnostic>)
        requires
            old(self).wf(),
        ensures
            final(self).wf(),
            out@.map_values(|d: Diagnostic| diagnostic_view(d)) == old(self)@.ordered,
            final(self)@.ordered.len() == 0,
            final(self)@.seen == Set::<ReportKey>::empty(),
            final(self)@.suppressed == 0,
    {
        self.seen = Vec::new();
        self.suppressed = 0;
        let mut out: Vec<Diagnostic> = Vec::new();
        std::mem::swap(&mut out, &mut self.ordered);
        proof {
            assert(self@.seen =~= Set::<ReportKey>::empty());
        }
        out
    }

    /// How many reports were dropped past the limit.
    pub fn suppressed(&self) -> (n: usize)
        ensures
            n == self@.suppressed,
    {
        self.suppressed
    }

    /// Whether no report is kept.
    pub fn is_empty(&self) -> (b: bool)
        ensures
            b == (self@.ordered.len() == 0),
    {
        self.ordered.len() == 0
    }
}

/// Recording the same report twice keeps it at most once: the second recording adds no report
/// and marks nothing new as seen.
pub proof fn lemma_record_idempotent(
    d: DiagnosticsView,
    severity: Severity,
    site: SiteView,
    subject: Seq<char>,
    key: Seq<char>,
    first: Seq<char>,
    second: Seq<char>,
)
    ensures
        ({
            let once = recorded(d, severity, site, subject, key, first);
            let twice = recorded(once, severity, site, subject, key, second);
            &&& twice.ordered == once.ordered
            &&& twice.seen == once.seen
        }),
{
}

} // verus!
