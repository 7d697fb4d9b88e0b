use vstd::prelude::*;
use vstd::string::{StrSliceExecFns, StringExecFns};
use crate::filename::first_pos;
use crate::text::{push_char, trim, trimmed};

verus! {

/// One mail account to archive.
pub struct AccountConfig {
    pub server: String,
    pub username: String,
    pub password: String,
    pub local_dir: String,
}

/// Why a configuration could not be loaded.
#[derive(PartialEq, Eq, Structural, Debug, Clone, Copy)]
pub enum ConfigError {
    /// One of the four values is missing or empty.
    MissingValue,
    /// A line that is neither blank nor a comment has no `=`.
    MalformedLine,
    /// The tabular form could not be read as comma-separated records.
    NotTabular,
}

/// The four values of an account, in the order server, username, password,
/// local directory.
pub type Settings = (Seq<char>, Seq<char>, Seq<char>, Seq<char>);

impl AccountConfig {
    pub open spec fn settings(&self) -> Settings {
        (self.server@, self.username@, self.password@, self.local_dir@)
    }
}

/// Whether all four values are non-empty.
pub open spec fn complete(s: Settings) -> bool {
    s.0.len() > 0 && s.1.len() > 0 && s.2.len() > 0 && s.3.len() > 0
}

/// Scanning state after reading `s`: the finished lines and the line in
/// progress.
pub open spec fn scan_lines(s: Seq<char>) -> (Seq<Seq<char>>, Seq<char>)
    decreases s.len(),
{
    if s.len() == 0 {
        (Seq::empty(), Seq::empty())
    } else {
        let (done, cur) = scan_lines(s.drop_last());
        if s.last() == '\n' {
            (done.push(cur), Seq::empty())
        } else {
            (done, cur.push(s.last()))
        }
    }
}

/// The lines of `s`: split at each newline, with no empty line after a
/// final newline.
pub open spec fn lines(s: Seq<char>) -> Seq<Seq<char>> {
    let (done, cur) = scan_lines(s);
    if cur.len() > 0 {
        done.push(cur)
    } else {
        done
    }
}

pub open spec fn server_key() -> Seq<char> {
    seq!['s', 'e', 'r', 'v', 'e', 'r']
}

pub open spec fn username_key() -> Seq<char> {
    seq!['u', 's', 'e', 'r', 'n', 'a', 'm', 'e']
}

pub open spec fn password_key() -> Seq<char> {
    seq!['p', 'a', 's', 's', 'w', 'o', 'r', 'd']
}

pub open spec fn local_dir_key() -> Seq<char> {
    seq!['l', 'o', 'c', 'a', 'l', '_', 'd', 'i', 'r']
}

/// Whether a line is skipped: blank, or a comment starting with `#`.
pub open spec fn ignored_line(line: Seq<char>) -> bool {
    (line.len() > 0 && line[0] == '#') || trimmed(line).len() == 0
}

/// The settings after one `key = value` line. Unknown keys change nothing;
/// a later line overrides an earlier one with the same key.
pub open spec fn apply_line(s: Settings, line: Seq<char>) -> Result<Settings, ConfigError> {
    if ignored_line(line) {
        Ok(s)
    } else {
        let p = first_pos(line, '=');
        if p < 0 {
            Err(ConfigError::MalformedLine)
        } else {
            let key = trimmed(line.subrange(0, p));
            let value = trimmed(line.subrange(p + 1, line.len() as int));
            if key == server_key() {
                Ok((value, s.1, s.2, s.3))
            } else if key == username_key() {
                Ok((s.0, value, s.2, s.3))
            } else if key == password_key() {
                Ok((s.0, s.1, value, s.3))
            } else if key == local_dir_key() {
                Ok((s.0, s.1, s.2, value))
            } else {
                Ok(s)
            }
        }
    }
}

/// The settings after the given lines, starting with all four empty.
pub open spec fn apply_lines(ls: Seq<Seq<char>>) -> Result<Settings, ConfigError>
    decreases ls.len(),
{
    if ls.len() == 0 {
        Ok((Seq::empty(), Seq::empty(), Seq::empty(), Seq::empty()))
    } else {
        match apply_lines(ls.drop_last()) {
            Ok(s) => apply_line(s, ls.last()),
            Err(e) => Err(e),
        }
    }
}

/// The account that a `key = value` text describes.
pub open spec fn key_value_config(text: Seq<char>) -> Result<Settings, ConfigError> {
    match apply_lines(lines(text)) {
        Ok(s) => if complete(s) {
            Ok(s)
        } else {
            Err(ConfigError::MissingValue)
        },
        Err(e) => Err(e),
    }
}

/// Whether two texts are the same.
pub fn same_text(a: &str, b: &str) -> (r: bool)
    ensures
        r == (a@ == b@),
{
    let n = a.unicode_len();
    if n != b.unicode_len() {
        return false;
    }
    let mut i: usize = 0;
    while i < n
        invariant
            n == a@.len(),
            n == b@.len(),
            i <= n,
            forall|j: int| 0 <= j < i ==> a@[j] == b@[j],
        decreases n - i,
    {
        if a.get_char(i) != b.get_char(i) {
            return false;
        }
        i = i + 1;
    }
    assert(a@ =~= b@);
    true
}

/// Splits a text into its lines.
pub fn split_lines(s: &str) -> (r: Vec<String>)
    ensures
        r.deep_view() == lines(s@),
{
    let n = s.unicode_len();
    let mut done: Vec<String> = Vec::new();
    let mut cur = String::new();
    let mut i: usize = 0;
    while i < n
        invariant
            n == s@.len(),
            i <= n,
            done.deep_view() == scan_lines(s@.take(i as int)).0,
            cur@ == scan_lines(s@.take(i as int)).1,
        decreases n - i,
    {
        let c = s.get_char(i);
        assert(s@.take(i as int + 1).drop_last() == s@.take(i as int));
        if c == '\n' {
            let w = cur;
            cur = String::new();
            let ghost before = done.deep_view();
            done.push(w);
            assert(done.deep_view() =~= before.push(w@));
        } else {
            push_char(&mut cur, c);
        }
        i = i + 1;
    }
    assert(s@.take(n as int) == s@);
    if cur.unicode_len() > 0 {
        let ghost before = done.deep_view();
        let w = cur;
        done.push(w);
        assert(done.deep_view() =~= before.push(w@));
    }
    done
}

proof fn lemma_first_pos_prefix(s: Seq<char>, k: int, c: char)
    requires
        0 <= k <= s.len(),
        first_pos(s.take(k), c) >= 0,
    ensures
        first_pos(s, c) == first_pos(s.take(k), c),
    decreases s.len() - k,
{
    if k < s.len() {
        assert(s.take(s.len() - 1).take(k) == s.take(k));
        lemma_first_pos_prefix(s.take(s.len() - 1), k, c);
        assert(s.drop_last() == s.take(s.len() - 1));
    } else {
        assert(s.take(k) == s);
    }
}

/// Position of the first `=` in a line, if any.
fn find_equals(line: &str) -> (r: Option<usize>)
    ensures
        match r {
            Some(p) => p as int == first_pos(line@, '=') && p < line@.len(),
            None => first_pos(line@, '=') == -1,
        },
{
    let n = line.unicode_len();
    let mut i: usize = 0;
    while i < n
        invariant
            n == line@.len(),
            i <= n,
            first_pos(line@.take(i as int), '=') == -1,
        decreases n - i,
    {
        assert(line@.take(i as int + 1).drop_last() == line@.take(i as int));
        if line.get_char(i) == '=' {
            proof {
                lemma_first_pos_prefix(line@, i as int + 1, '=');
            }
            return Some(i);
        }
        i = i + 1;
    }
    assert(line@.take(n as int) == line@);
    None
}

/// Reads an account from `key = value` lines with the keys `server`,
/// `username`, `password` and `local_dir`. Blank lines and lines starting
/// with `#` are skipped, unknown keys are ignored, and all four values must
/// be present and non-empty.
pub fn read_config(text: &str) -> (r: Result<AccountConfig, ConfigError>)
    ensures
        match r {
            Ok(c) => key_value_config(text@) == Ok::<Settings, ConfigError>(c.settings()),
            Err(e) => key_value_config(text@) == Err::<Settings, ConfigError>(e),
        },
{
    let ls = split_lines(text);
    let mut server = String::new();
    let mut username = String::new();
    let mut password = String::new();
    let mut local_dir = String::new();
    let server_name = "server";
    let username_name = "username";
    let password_name = "password";
    let local_dir_name = "local_dir";
    proof {
        reveal_strlit("server");
        reveal_strlit("username");
        reveal_strlit("password");
        reveal_strlit("local_dir");
    }
    assert(server_name@ =~= server_key());
    assert(username_name@ =~= username_key());
    assert(password_name@ =~= password_key());
    assert(local_dir_name@ =~= local_dir_key());
    let n = ls.len();
    let mut i: usize = 0;
    while i < n
        invariant
            n == ls@.len(),
            ls.deep_view() == lines(text@),
            i <= n,
            server_name@ == server_key(),
            username_name@ == username_key(),
            password_name@ == password_key(),
            local_dir_name@ == local_dir_key(),
            apply_lines(ls.deep_view().take(i as int))
                == Ok::<Settings, ConfigError>((server@, username@, password@, local_dir@)),
        decreases n - i,
    {
        let ghost prefix = ls.deep_view().take(i as int + 1);
        assert(prefix.drop_last() == ls.deep_view().take(i as int));
        assert(prefix.last() == ls@[i as int]@);
        let line = ls[i].as_str();
        let skip = (line.unicode_len() > 0 && line.get_char(0) == '#') || trim(line).unicode_len() == 0;
        if !skip {
            let p = match find_equals(line) {
                Some(p) => p,
                None => {
                    assert(apply_lines(prefix) == Err::<Settings, ConfigError>(ConfigError::MalformedLine));
                    assert(ls.deep_view() =~= prefix + ls.deep_view().skip(i as int + 1));
                    proof {
                        lemma_error_sticks(prefix, ls.deep_view().skip(i as int + 1));
                    }
                    return Err(ConfigError::MalformedLine);
                },
            };
            let key = trim(line.substring_char(0, p));
            let value = trim(line.substring_char(p + 1, line.unicode_len()));
            if same_text(key, server_name) {
                server = String::from_str(value);
            } else if same_text(key, username_name) {
                username = String::from_str(value);
            } else if same_text(key, password_name) {
                password = String::from_str(value);
            } else if same_text(key, local_dir_name) {
                local_dir = String::from_str(value);
            }
        }
        i = i + 1;
    }
    assert(ls.deep_view().take(n as int) =~= ls.deep_view());
    if server.unicode_len() == 0 || username.unicode_len() == 0 || password.unicode_len() == 0
        || local_dir.unicode_len() == 0 {
        return Err(ConfigError::MissingValue);
    }
    Ok(AccountConfig { server, username, password, local_dir })
}

proof fn lemma_error_sticks(a: Seq<Seq<char>>, b: Seq<Seq<char>>)
    requires
        apply_lines(a) is Err,
    ensures
        apply_lines(a + b) == apply_lines(a),
    decreases b.len(),
{
    if b.len() == 0 {
        assert(a + b =~= a);
    } else {
        lemma_error_sticks(a, b.drop_last());
        assert((a + b).drop_last() =~= a + b.drop_last());
    }
}

/// The records that the `csv` crate reads from a text with `,` as
/// delimiter and no header row, or `None` where it reports an error.
pub uninterp spec fn csv_rows(text: Seq<u8>) -> Option<Seq<Seq<Seq<char>>>>;

/// Relies on `csv::Reader::records` (built by `ReaderBuilder` with no
/// header row and `,` as delimiter): the records depend on the bytes alone.
#[verifier::external_body]
fn csv_records(text: &[u8]) -> (r: Option<Vec<Vec<String>>>)
    ensures
        match r {
            Some(rows) => csv_rows(text@) == Some(rows.deep_view()),
            None => csv_rows(text@).is_none(),
        },
{
    let mut reader = csv::ReaderBuilder::new().has_headers(false).delimiter(b',').from_reader(text);
    let mut rows = Vec::new();
    for record in reader.records() {
        let record = record.ok()?;
        rows.push(record.iter().map(|f| f.to_string()).collect());
    }
    Some(rows)
}

/// Field `k` of a record, or empty where the record is shorter.
pub open spec fn field(row: Seq<Seq<char>>, k: int) -> Seq<char> {
    if k < row.len() {
        row[k]
    } else {
        Seq::empty()
    }
}

/// The settings of one record: its first four fields.
pub open spec fn row_settings(row: Seq<Seq<char>>) -> Settings {
    (field(row, 0), field(row, 1), field(row, 2), field(row, 3))
}

/// Whether every record has its four values.
pub open spec fn rows_complete(rows: Seq<Seq<Seq<char>>>) -> bool {
    forall|i: int| 0 <= i < rows.len() ==> complete(#[trigger] row_settings(rows[i]))
}

fn field_of(row: &Vec<String>, k: usize) -> (r: String)
    ensures
        r@ == field(row.deep_view(), k as int),
{
    if k < row.len() {
        row[k].clone()
    } else {
        String::new()
    }
}

/// Turns records of server, username, password and local directory into
/// accounts, one per record, failing if any of the four is missing or empty.
pub fn accounts_from_rows(rows: &Vec<Vec<String>>) -> (r: Result<Vec<AccountConfig>, ConfigError>)
    ensures
        match r {
            Ok(accounts) => rows_complete(rows.deep_view()) && accounts@.len() == rows@.len()
                && forall|i: int| 0 <= i < rows@.len()
                    ==> (#[trigger] accounts@[i]).settings() == row_settings(rows.deep_view()[i]),
            Err(e) => !rows_complete(rows.deep_view()) && e == ConfigError::MissingValue,
        },
{
    let n = rows.len();
    let mut accounts: Vec<AccountConfig> = Vec::new();
    let mut i: usize = 0;
    while i < n
        invariant
            n == rows@.len(),
            i <= n,
            accounts@.len() == i,
            forall|j: int| 0 <= j < i ==> complete(#[trigger] row_settings(rows.deep_view()[j])),
            forall|j: int| 0 <= j < i
                ==> (#[trigger] accounts@[j]).settings() == row_settings(rows.deep_view()[j]),
        decreases n - i,
    {
        let row = &rows[i];
        assert(rows.deep_view()[i as int] == row.deep_view());
        let server = field_of(row, 0);
        let username = field_of(row, 1);
        let password = field_of(row, 2);
        let local_dir = field_of(row, 3);
        if server.unicode_len() == 0 || username.unicode_len() == 0 || password.unicode_len() == 0
            || local_dir.unicode_len() == 0 {
            assert(!complete(row_settings(rows.deep_view()[i as int])));
            return Err(ConfigError::MissingValue);
        }
        accounts.push(AccountConfig { server, username, password, local_dir });
        i = i + 1;
    }
    Ok(accounts)
}

/// Reads accounts from comma-separated records with no header row.
pub fn read_config_csv(text: &[u8]) -> (r: Result<Vec<AccountConfig>, ConfigError>)
    ensures
        match csv_rows(text@) {
            None => r == Err::<Vec<AccountConfig>, ConfigError>(ConfigError::NotTabular),
            Some(rows) => match r {
                Ok(accounts) => rows_complete(rows) && accounts@.len() == rows.len()
                    && forall|i: int| 0 <= i < rows.len()
                        ==> (#[trigger] accounts@[i]).settings() == row_settings(rows[i]),
                Err(e) => !rows_complete(rows) && e == ConfigError::MissingValue,
            },
        },
{
    match csv_records(text) {
        Some(rows) => accounts_from_rows(&rows),
        None => Err(ConfigError::NotTabular),
    }
}

/// The name of an account's own directory: `<server>_<username>`.
pub fn account_dir_name(server: &str, username: &str) -> (r: String)
    ensures
        r@ == server@ + seq!['_'] + username@,
{
    let mut r = String::from_str(server);
    push_char(&mut r, '_');
    r.append(username);
    r
}

} // verus!
