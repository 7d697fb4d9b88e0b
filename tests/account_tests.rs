use mail_archiver::account::{AccountRun, Event, Step};
use mail_archiver::archive::{file_name_for_message, ArchiveIndex, Decision};
use mail_archiver::config::{account_dir_name, read_config};

#[test]
fn connect_failure_skips_account() {
    let mut run = AccountRun::new();
    run.on_event(Event::ConnectFailed);
    assert_eq!(run.step, Step::Finished);
    assert!(run.failed);
}

#[test]
fn select_failure_skips_mailbox() {
    let mut run = AccountRun::new();
    run.on_event(Event::Connected);
    run.on_event(Event::Listed(2));
    assert_eq!(run.step, Step::Select(0));
    run.on_event(Event::SelectFailed);
    assert_eq!(run.step, Step::Select(1));
    assert!(!run.failed);
}

#[test]
fn write_failure_still_logs_out() {
    let mut run = AccountRun::new();
    run.on_event(Event::Connected);
    run.on_event(Event::Listed(3));
    run.on_event(Event::Selected);
    run.on_event(Event::ArchiveFailed);
    assert_eq!(run.step, Step::Logout);
    run.on_event(Event::LoggedOut);
    assert_eq!(run.step, Step::Finished);
    assert!(run.failed);
}

#[test]
fn no_mailboxes_goes_to_logout() {
    let mut run = AccountRun::new();
    run.on_event(Event::Connected);
    run.on_event(Event::Listed(0));
    assert_eq!(run.step, Step::Logout);
}

#[test]
fn unrelated_event_changes_nothing() {
    let mut run = AccountRun::new();
    run.on_event(Event::Archived);
    assert_eq!(run.step, Step::Connect);
}

/// Runs one account over in-memory mailboxes; returns the lines printed for
/// written and skipped messages.
fn archive_account(
    mailboxes: &[(&str, Vec<&[u8]>)],
    index: &mut ArchiveIndex,
    written: &mut Vec<String>,
) -> (usize, usize) {
    let mut run = AccountRun::new();
    let mut downloaded = 0;
    let mut present = 0;
    loop {
        match run.step {
            Step::Connect => run.on_event(Event::Connected),
            Step::ListMailboxes => run.on_event(Event::Listed(mailboxes.len())),
            Step::Select(_) => run.on_event(Event::Selected),
            Step::Archive(i) => {
                for body in &mailboxes[i].1 {
                    let name = file_name_for_message(body).unwrap();
                    match index.offer(name.clone()) {
                        Decision::Write => {
                            written.push(name);
                            downloaded += 1;
                        }
                        Decision::AlreadyPresent => present += 1,
                    }
                }
                run.on_event(Event::Archived);
            }
            Step::Logout => run.on_event(Event::LoggedOut),
            Step::Finished => break,
        }
    }
    (downloaded, present)
}

#[test]
fn end_to_end_two_mailboxes() {
    let config = read_config("server=imap.x.org\nusername=me\npassword=p\nlocal_dir=/arch\n").ok().unwrap();
    assert_eq!(account_dir_name(&config.server, &config.username), "imap.x.org_me");
    let full: &[u8] = b"From: John Doe <j@x.com>\r\nDate: Mon, 3 Jan 2022 04:05:06 +0000\r\n\r\nhello\r\n";
    let no_date: &[u8] = b"From: <k@y.com>\r\nSubject: s\r\n\r\nbye\r\n";
    let mailboxes = [("INBOX", vec![full, no_date]), ("Sent", Vec::new())];
    let mut index = ArchiveIndex::new(Vec::new());
    let mut written = Vec::new();
    assert_eq!(archive_account(&mailboxes, &mut index, &mut written), (2, 0));
    assert_eq!(written, vec!["20220103040506_j@x.com.eml".to_string(), "00000000000000_k@y.com.eml".to_string()]);
    let mut again = Vec::new();
    assert_eq!(archive_account(&mailboxes, &mut index, &mut again), (0, 2));
    assert!(again.is_empty());
}
