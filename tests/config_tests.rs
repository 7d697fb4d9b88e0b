use mail_archiver::config::{account_dir_name, read_config, read_config_csv, split_lines, ConfigError};

#[test]
fn key_value_config_is_read() {
    let text = "# account\nserver = imap.example.com\n\nusername=me\npassword = SECRET-REDACTED\nlocal_dir = /tmp/mail\nother = x\n";
    let c = read_config(text).ok().unwrap();
    assert_eq!(c.server, "imap.example.com");
    assert_eq!(c.username, "me");
    assert_eq!(c.password, "SECRET-REDACTED");
    assert_eq!(c.local_dir, "/tmp/mail");
}

#[test]
fn later_key_overrides() {
    let text = "server=a\nserver=b\nusername=u\npassword=p\nlocal_dir=d";
    assert_eq!(read_config(text).ok().unwrap().server, "b");
}

#[test]
fn missing_key_value_is_refused() {
    let text = "server=a\nusername=u\npassword=\nlocal_dir=d\n";
    assert_eq!(read_config(text).err(), Some(ConfigError::MissingValue));
    assert_eq!(read_config("").err(), Some(ConfigError::MissingValue));
}

#[test]
fn line_without_equals_is_refused() {
    let text = "server=a\njust words\nusername=u\npassword=p\nlocal_dir=d\n";
    assert_eq!(read_config(text).err(), Some(ConfigError::MalformedLine));
}

#[test]
fn crlf_lines_are_trimmed() {
    let text = "server=a\r\nusername=u\r\npassword=p\r\nlocal_dir=d\r\n";
    let c = read_config(text).ok().unwrap();
    assert_eq!(c.server, "a");
    assert_eq!(c.local_dir, "d");
}

#[test]
fn lines_split() {
    assert_eq!(split_lines("a\n\nb"), vec!["a".to_string(), "".to_string(), "b".to_string()]);
    assert_eq!(split_lines("a\n"), vec!["a".to_string()]);
}

#[test]
fn csv_config_is_read() {
    let text = b"imap.a.com,alice,pw1,/data/a\nimap.b.com,bob,pw2,/data/b\n";
    let accounts = read_config_csv(text).ok().unwrap();
    assert_eq!(accounts.len(), 2);
    assert_eq!(accounts[0].server, "imap.a.com");
    assert_eq!(accounts[0].username, "alice");
    assert_eq!(accounts[1].password, "pw2");
    assert_eq!(accounts[1].local_dir, "/data/b");
}

#[test]
fn csv_missing_field_is_refused() {
    let text = b"imap.a.com,alice,,/data/a\n";
    assert_eq!(read_config_csv(text).err(), Some(ConfigError::MissingValue));
}

#[test]
fn csv_short_record_is_refused() {
    let text = b"imap.a.com,alice,pw\n";
    assert_eq!(read_config_csv(text).err(), Some(ConfigError::MissingValue));
}

#[test]
fn csv_ragged_records_are_not_tabular() {
    let text = b"a,b,c,d\ne,f\n";
    assert_eq!(read_config_csv(text).err(), Some(ConfigError::NotTabular));
}

#[test]
fn account_directory_name() {
    assert_eq!(account_dir_name("imap.example.com", "me"), "imap.example.com_me");
}
