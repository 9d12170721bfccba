//! The security audit: a summary of check results, a pass rule and a score.

use vstd::prelude::*;
use crate::error::PkgError;

verus! {

#[derive(Debug, Clone, Copy, PartialEq, Eq, Structural)]
pub enum Severity {
    Critical,
    High,
    Medium,
    Low,
    Info,
}

/// The outcome of one check.
#[derive(Debug)]
pub struct SecurityCheckResult {
    pub check_name: String,
    pub severity: Severity,
    pub passed: bool,
    pub message: String,
    pub details: Option<String>,
}

/// The summary of an audit.
#[derive(Debug)]
pub struct SecurityAuditResult {
    pub checks: Vec<SecurityCheckResult>,
    pub total_checks: usize,
    pub passed_checks: usize,
    pub failed_checks: usize,
    pub critical_issues: usize,
    pub high_issues: usize,
    pub medium_issues: usize,
}

/// Summarises the results of security checks.
pub struct SecurityAudit;

/// How many of the first `n` checks passed.
pub open spec fn count_passed(c: Seq<SecurityCheckResult>, n: int) -> nat
    decreases n,
{
    if n <= 0 || n > c.len() {
        0
    } else {
        count_passed(c, n - 1) + if c[n - 1].passed {
            1nat
        } else {
            0nat
        }
    }
}

/// How many of the first `n` checks failed with severity `s`.
pub open spec fn count_failed(c: Seq<SecurityCheckResult>, n: int, s: Severity) -> nat
    decreases n,
{
    if n <= 0 || n > c.len() {
        0
    } else {
        count_failed(c, n - 1, s) + if !c[n - 1].passed && c[n - 1].severity == s {
            1nat
        } else {
            0nat
        }
    }
}

proof fn lemma_counts_bounded(c: Seq<SecurityCheckResult>, n: int, s: Severity)
    requires
        0 <= n <= c.len(),
    ensures
        count_passed(c, n) <= n,
        count_failed(c, n, s) <= n,
        count_failed(c, n, s) + count_passed(c, n) <= n,
    decreases n,
{
    if n > 0 {
        lemma_counts_bounded(c, n - 1, s);
    }
}

impl SecurityAudit {
    /// Summarises check results: totals, passes, failures, and failures by
    /// severity.
    pub fn run(checks: Vec<SecurityCheckResult>) -> (r: Result<SecurityAuditResult, PkgError>)
        ensures
            r matches Ok(a) && {
                &&& a.checks@ == checks@
                &&& a.total_checks == checks@.len()
                &&& a.passed_checks == count_passed(checks@, checks@.len() as int)
                &&& a.failed_checks == checks@.len() - count_passed(checks@, checks@.len() as int)
                &&& a.critical_issues == count_failed(checks@, checks@.len() as int, Severity::Critical)
                &&& a.high_issues == count_failed(checks@, checks@.len() as int, Severity::High)
                &&& a.medium_issues == count_failed(checks@, checks@.len() as int, Severity::Medium)
            },
    {
        let mut passed: usize = 0;
        let mut critical: usize = 0;
        let mut high: usize = 0;
        let mut medium: usize = 0;
        let mut i: usize = 0;
        while i < checks.len()
            invariant
                i <= checks@.len(),
                passed == count_passed(checks@, i as int),
                critical == count_failed(checks@, i as int, Severity::Critical),
                high == count_failed(checks@, i as int, Severity::High),
                medium == count_failed(checks@, i as int, Severity::Medium),
            decreases checks.len() - i,
        {
            proof {
                lemma_counts_bounded(checks@, i as int, Severity::Critical);
                lemma_counts_bounded(checks@, i as int, Severity::High);
                lemma_counts_bounded(checks@, i as int, Severity::Medium);
            }
            let c = &checks[i];
            if c.passed {
                passed = passed + 1;
            } else {
                match c.severity {
                    Severity::Critical => {
                        critical = critical + 1;
                    },
                    Severity::High => {
                        high = high + 1;
                    },
                    Severity::Medium => {
                        medium = medium + 1;
                    },
                    _ => {},
                }
            }
            i = i + 1;
        }
        proof {
            lemma_counts_bounded(checks@, checks@.len() as int, Severity::Critical);
        }
        let total = checks.len();
        Ok(
            SecurityAuditResult {
                checks,
                total_checks: total,
                passed_checks: passed,
                failed_checks: total - passed,
                critical_issues: critical,
                high_issues: high,
                medium_issues: medium,
            },
        )
    }
}

impl SecurityAuditResult {
    /// The score from 0 to 100: the share of passed checks in percent,
    /// rounded down, less 20 per critical, 10 per high and 5 per medium
    /// issue, kept within 0 and 100.
    pub open spec fn score_spec(&self) -> int {
        if self.total_checks == 0 {
            100
        } else {
            let v = (100 * self.passed_checks) as int / self.total_checks as int - (20
                * self.critical_issues + 10 * self.high_issues + 5 * self.medium_issues);
            if v < 0 {
                0
            } else if v > 100 {
                100
            } else {
                v
            }
        }
    }

    /// The audit passed: no critical and no high issue.
    pub fn passed(&self) -> (r: bool)
        ensures
            r == (self.critical_issues == 0 && self.high_issues == 0),
    {
        self.critical_issues == 0 && self.high_issues == 0
    }

    /// The overall score.
    pub fn score(&self) -> (r: u8)
        ensures
            r as int == self.score_spec(),
    {
        if self.total_checks == 0 {
            return 100;
        }
        let base: u128 = (100 * (self.passed_checks as u128)) / (self.total_checks as u128);
        let penalty: u128 = 20 * (self.critical_issues as u128) + 10 * (self.high_issues as u128) + 5
            * (self.medium_issues as u128);
        if penalty >= base {
            0
        } else if base - penalty > 100 {
            100
        } else {
            (base - penalty) as u8
        }
    }
}

} // verus!
