use vstd::prelude::*;

verus! {

/// What the caller does next for one account.
#[derive(PartialEq, Eq, Structural, Debug, Clone, Copy)]
pub enum Step {
    /// Open an authenticated session.
    Connect,
    /// List every mailbox of the session.
    ListMailboxes,
    /// Select the mailbox with this position in the listing.
    Select(usize),
    /// Archive the selected mailbox, which has this position in the listing.
    Archive(usize),
    /// End the session.
    Logout,
    /// Nothing is left to do for this account.
    Finished,
}

/// What came of the last step.
#[derive(PartialEq, Eq, Structural, Debug, Clone, Copy)]
pub enum Event {
    Connected,
    ConnectFailed,
    /// The listing holds this many mailboxes.
    Listed(usize),
    ListFailed,
    Selected,
    SelectFailed,
    Archived,
    /// Writing a file failed; the account stops here.
    ArchiveFailed,
    LoggedOut,
}

/// The progress of one account: the step to take, how many mailboxes the
/// listing gave, and whether something fatal to the account happened.
#[derive(PartialEq, Eq, Structural, Debug, Clone, Copy)]
pub struct AccountRun {
    pub step: Step,
    pub mailboxes: usize,
    pub failed: bool,
}

/// Whether the session is open at this step.
pub open spec fn in_session(s: Step) -> bool {
    match s {
        Step::ListMailboxes | Step::Select(_) | Step::Archive(_) | Step::Logout => true,
        _ => false,
    }
}

/// The step after the mailbox at position `i`: the next one, or logout.
pub open spec fn after_mailbox(i: int, n: int) -> Step {
    if i + 1 < n {
        Step::Select((i + 1) as usize)
    } else {
        Step::Logout
    }
}

/// The account's progress after `e`. A failed connection ends the account
/// without a session; a failed selection skips that mailbox; a failed
/// listing or write ends the account, but only through logout. An event
/// that does not answer the current step changes nothing.
pub open spec fn next_run(r: AccountRun, e: Event) -> AccountRun {
    match (r.step, e) {
        (Step::Connect, Event::Connected) => AccountRun { step: Step::ListMailboxes, ..r },
        (Step::Connect, Event::ConnectFailed) => AccountRun { step: Step::Finished, failed: true, ..r },
        (Step::ListMailboxes, Event::Listed(n)) => AccountRun {
            step: if n == 0 { Step::Logout } else { Step::Select(0) },
            mailboxes: n,
            ..r
        },
        (Step::ListMailboxes, Event::ListFailed) => AccountRun { step: Step::Logout, failed: true, ..r },
        (Step::Select(i), Event::Selected) => AccountRun { step: Step::Archive(i), ..r },
        (Step::Select(i), Event::SelectFailed) => AccountRun {
            step: after_mailbox(i as int, r.mailboxes as int),
            ..r
        },
        (Step::Archive(i), Event::Archived) => AccountRun {
            step: after_mailbox(i as int, r.mailboxes as int),
            ..r
        },
        (Step::Archive(_), Event::ArchiveFailed) => AccountRun { step: Step::Logout, failed: true, ..r },
        (Step::Logout, Event::LoggedOut) => AccountRun { step: Step::Finished, ..r },
        _ => r,
    }
}

impl AccountRun {
    /// Every mailbox position named by the step lies within the listing.
    pub open spec fn well_formed(&self) -> bool {
        match self.step {
            Step::Select(i) | Step::Archive(i) => i < self.mailboxes,
            _ => true,
        }
    }

    /// An account that has not been connected yet.
    pub fn new() -> (r: AccountRun)
        ensures
            r.step == Step::Connect,
            r.mailboxes == 0,
            !r.failed,
            r.well_formed(),
    {
        AccountRun { step: Step::Connect, mailboxes: 0, failed: false }
    }

    /// Moves on according to what came of the current step.
    pub fn on_event(&mut self, e: Event)
        ensures
            *final(self) == next_run(*old(self), e),
            old(self).well_formed() ==> final(self).well_formed(),
    {
        let r = *self;
        let next = match (r.step, e) {
            (Step::Connect, Event::Connected) => AccountRun { step: Step::ListMailboxes, ..r },
            (Step::Connect, Event::ConnectFailed) => AccountRun { step: Step::Finished, failed: true, ..r },
            (Step::ListMailboxes, Event::Listed(n)) => AccountRun {
                step: if n == 0 { Step::Logout } else { Step::Select(0) },
                mailboxes: n,
                ..r
            },
            (Step::ListMailboxes, Event::ListFailed) => AccountRun { step: Step::Logout, failed: true, ..r },
            (Step::Select(i), Event::Selected) => AccountRun { step: Step::Archive(i), ..r },
            (Step::Select(i), Event::SelectFailed) => AccountRun { step: Self::after(i, r.mailboxes), ..r },
            (Step::Archive(i), Event::Archived) => AccountRun { step: Self::after(i, r.mailboxes), ..r },
            (Step::Archive(_), Event::ArchiveFailed) => AccountRun { step: Step::Logout, failed: true, ..r },
            (Step::Logout, Event::LoggedOut) => AccountRun { step: Step::Finished, ..r },
            _ => r,
        };
        *self = next;
    }

    fn after(i: usize, n: usize) -> (r: Step)
        ensures
            r == after_mailbox(i as int, n as int),
    {
        if n > 0 && i < n - 1 {
            Step::Select(i + 1)
        } else {
            Step::Logout
        }
    }
}

/// Once the session is open, no event ends the account without passing
/// through logout.
pub proof fn lemma_logout_guaranteed(r: AccountRun, e: Event)
    requires
        in_session(r.step),
        r.step != Step::Logout,
    ensures
        in_session(next_run(r, e).step),
{
}

/// Mailboxes are visited in the order of the listing: after the mailbox at
/// position `i` comes the one at `i + 1`, or logout after the last; no
/// mailbox is returned to once left.
pub proof fn lemma_mailboxes_in_order(r: AccountRun, e: Event, i: usize)
    requires
        r.step == Step::Select(i) || r.step == Step::Archive(i),
    ensures
        match next_run(r, e).step {
            Step::Select(j) => j == i || j == i + 1,
            Step::Archive(j) => j == i,
            Step::Logout => true,
            _ => false,
        },
{
}

} // verus!
