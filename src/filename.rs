use vstd::prelude::*;
use vstd::string::{StrSliceExecFns, StringExecFns};
use crate::text::{
    is_space, is_space_spec, lower_of, lowercase, push_char,
};

verus! {

/// `s` with every space turned into an underscore.
pub open spec fn underscored(s: Seq<char>) -> Seq<char> {
    s.map_values(|c: char| if c == ' ' { '_' } else { c })
}

/// The sender text once lowercased and with spaces turned into underscores.
pub open spec fn sanitized(s: Seq<char>) -> Seq<char> {
    underscored(lower_of(s))
}

/// Position of the last `c` in `s`, or -1 where there is none.
pub open spec fn last_pos(s: Seq<char>, c: char) -> int
    decreases s.len(),
{
    if s.len() == 0 {
        -1
    } else if s.last() == c {
        s.len() - 1
    } else {
        last_pos(s.drop_last(), c)
    }
}

/// The text strictly between the last `<` and the last `>` when the latter
/// comes after the former; otherwise the whole text.
pub open spec fn between_last_brackets(s: Seq<char>) -> Seq<char> {
    let a = last_pos(s, '<');
    let b = last_pos(s, '>');
    if 0 <= a && a < b {
        s.subrange(a + 1, b)
    } else {
        s
    }
}

/// The sender fragment of a file name, from the raw `From` text.
pub open spec fn sender_fragment(raw_from: Seq<char>) -> Seq<char> {
    between_last_brackets(sanitized(raw_from))
}

proof fn lemma_last_pos_bounds(s: Seq<char>, c: char)
    ensures
        -1 <= last_pos(s, c) < s.len(),
        last_pos(s, c) >= 0 ==> s[last_pos(s, c)] == c,
    decreases s.len(),
{
    if s.len() > 0 && s.last() != c {
        lemma_last_pos_bounds(s.drop_last(), c);
    }
}

/// Lowercases the sender text and turns each space into an underscore.
pub fn sanitize_filename(s: &str) -> (r: String)
    ensures
        r@ == sanitized(s@),
{
    let low = lowercase(s);
    let low_str = low.as_str();
    let n = low_str.unicode_len();
    let mut r = String::new();
    let mut i: usize = 0;
    while i < n
        invariant
            n == low_str@.len(),
            low_str@ == lower_of(s@),
            i <= n,
            r@ == underscored(low_str@.take(i as int)),
        decreases n - i,
    {
        let c = low_str.get_char(i);
        if c == ' ' {
            push_char(&mut r, '_');
        } else {
            push_char(&mut r, c);
        }
        assert(low_str@.take(i as int + 1) == low_str@.take(i as int).push(c));
        i = i + 1;
    }
    assert(low_str@.take(n as int) == low_str@);
    r
}

/// The address between the last `<` and the last `>`, or the whole text
/// where there is no such pair.
pub fn extract_between_last_brackets(s: &str) -> (r: &str)
    ensures
        r@ == between_last_brackets(s@),
{
    let n = s.unicode_len();
    let mut start: Option<usize> = None;
    let mut end: Option<usize> = None;
    let mut i: usize = 0;
    while i < n
        invariant
            n == s@.len(),
            i <= n,
            match start {
                Some(a) => a as int == last_pos(s@.take(i as int), '<'),
                None => last_pos(s@.take(i as int), '<') == -1,
            },
            match end {
                Some(b) => b as int == last_pos(s@.take(i as int), '>'),
                None => last_pos(s@.take(i as int), '>') == -1,
            },
        decreases n - i,
    {
        let c = s.get_char(i);
        assert(s@.take(i as int + 1).drop_last() == s@.take(i as int));
        if c == '<' {
            start = Some(i);
        }
        if c == '>' {
            end = Some(i);
        }
        i = i + 1;
    }
    assert(s@.take(n as int) == s@);
    proof {
        lemma_last_pos_bounds(s@, '<');
        lemma_last_pos_bounds(s@, '>');
    }
    match (start, end) {
        (Some(a), Some(b)) => {
            if a < b {
                s.substring_char(a + 1, b)
            } else {
                s
            }
        },
        _ => s,
    }
}

/// Scanning state after reading `s`: the finished words and the word in progress.
pub open spec fn scan_words(s: Seq<char>) -> (Seq<Seq<char>>, Seq<char>)
    decreases s.len(),
{
    if s.len() == 0 {
        (Seq::empty(), Seq::empty())
    } else {
        let (done, cur) = scan_words(s.drop_last());
        let c = s.last();
        if is_space_spec(c) {
            if cur.len() > 0 {
                (done.push(cur), Seq::empty())
            } else {
                (done, Seq::empty())
            }
        } else {
            (done, cur.push(c))
        }
    }
}

/// The maximal runs of non-white-space characters of `s`, in order.
pub open spec fn words(s: Seq<char>) -> Seq<Seq<char>> {
    let (done, cur) = scan_words(s);
    if cur.len() > 0 {
        done.push(cur)
    } else {
        done
    }
}

/// Splits `s` into its words, as `str::split_whitespace` does.
pub fn split_words(s: &str) -> (r: Vec<String>)
    ensures
        r.deep_view() == words(s@),
{
    let n = s.unicode_len();
    let mut done: Vec<String> = Vec::new();
    let mut cur = String::new();
    let mut i: usize = 0;
    while i < n
        invariant
            n == s@.len(),
            i <= n,
            done.deep_view() == scan_words(s@.take(i as int)).0,
            cur@ == scan_words(s@.take(i as int)).1,
        decreases n - i,
    {
        let c = s.get_char(i);
        assert(s@.take(i as int + 1).drop_last() == s@.take(i as int));
        if is_space(c) {
            if cur.unicode_len() > 0 {
                let w = cur;
                cur = String::new();
                let ghost before = done.deep_view();
                done.push(w);
                assert(done.deep_view() =~= before.push(w@));
            } else {
                cur = String::new();
            }
        } else {
            push_char(&mut cur, c);
        }
        i = i + 1;
    }
    assert(s@.take(n as int) == s@);
    if cur.unicode_len() > 0 {
        let ghost before = done.deep_view();
        let w = cur;
        done.push(w);
        assert(done.deep_view() =~= before.push(w@));
    }
    done
}

/// The two digits of a month named by its three-letter English abbreviation.
pub open spec fn month_digits(m: Seq<char>) -> Option<(char, char)> {
    if m.len() != 3 {
        None
    } else {
        let (a, b, c) = (m[0], m[1], m[2]);
        if a == 'J' && b == 'a' && c == 'n' { Some(('0', '1')) }
        else if a == 'F' && b == 'e' && c == 'b' { Some(('0', '2')) }
        else if a == 'M' && b == 'a' && c == 'r' { Some(('0', '3')) }
        else if a == 'A' && b == 'p' && c == 'r' { Some(('0', '4')) }
        else if a == 'M' && b == 'a' && c == 'y' { Some(('0', '5')) }
        else if a == 'J' && b == 'u' && c == 'n' { Some(('0', '6')) }
        else if a == 'J' && b == 'u' && c == 'l' { Some(('0', '7')) }
        else if a == 'A' && b == 'u' && c == 'g' { Some(('0', '8')) }
        else if a == 'S' && b == 'e' && c == 'p' { Some(('0', '9')) }
        else if a == 'O' && b == 'c' && c == 't' { Some(('1', '0')) }
        else if a == 'N' && b == 'o' && c == 'v' { Some(('1', '1')) }
        else if a == 'D' && b == 'e' && c == 'c' { Some(('1', '2')) }
        else { None }
    }
}

/// Looks up a month abbreviation, case-sensitively.
pub fn month_number(m: &str) -> (r: Option<(char, char)>)
    ensures
        r == month_digits(m@),
{
    if m.unicode_len() != 3 {
        return None;
    }
    let a = m.get_char(0);
    let b = m.get_char(1);
    let c = m.get_char(2);
    if a == 'J' && b == 'a' && c == 'n' { Some(('0', '1')) }
    else if a == 'F' && b == 'e' && c == 'b' { Some(('0', '2')) }
    else if a == 'M' && b == 'a' && c == 'r' { Some(('0', '3')) }
    else if a == 'A' && b == 'p' && c == 'r' { Some(('0', '4')) }
    else if a == 'M' && b == 'a' && c == 'y' { Some(('0', '5')) }
    else if a == 'J' && b == 'u' && c == 'n' { Some(('0', '6')) }
    else if a == 'J' && b == 'u' && c == 'l' { Some(('0', '7')) }
    else if a == 'A' && b == 'u' && c == 'g' { Some(('0', '8')) }
    else if a == 'S' && b == 'e' && c == 'p' { Some(('0', '9')) }
    else if a == 'O' && b == 'c' && c == 't' { Some(('1', '0')) }
    else if a == 'N' && b == 'o' && c == 'v' { Some(('1', '1')) }
    else if a == 'D' && b == 'e' && c == 'c' { Some(('1', '2')) }
    else { None }
}

/// Number of times `c` occurs in `s`.
pub open spec fn count_of(s: Seq<char>, c: char) -> nat
    decreases s.len(),
{
    if s.len() == 0 {
        0
    } else {
        count_of(s.drop_last(), c) + if s.last() == c { 1nat } else { 0nat }
    }
}

/// Position of the first `c` in `s`, or -1 where there is none.
pub open spec fn first_pos(s: Seq<char>, c: char) -> int
    decreases s.len(),
{
    if s.len() == 0 {
        -1
    } else if first_pos(s.drop_last(), c) >= 0 {
        first_pos(s.drop_last(), c)
    } else if s.last() == c {
        s.len() - 1
    } else {
        -1
    }
}

/// Hours, minutes and seconds of a time written `HH:MM:SS`: the three parts
/// around exactly two colons.
pub open spec fn time_fields(t: Seq<char>) -> Option<(Seq<char>, Seq<char>, Seq<char>)> {
    if count_of(t, ':') == 2 {
        let p = first_pos(t, ':');
        let q = last_pos(t, ':');
        Some((t.subrange(0, p), t.subrange(p + 1, q), t.subrange(q + 1, t.len() as int)))
    } else {
        None
    }
}

proof fn lemma_first_pos_bounds(s: Seq<char>, c: char)
    ensures
        -1 <= first_pos(s, c) < s.len(),
        count_of(s, c) > 0 ==> first_pos(s, c) >= 0,
    decreases s.len(),
{
    if s.len() > 0 {
        lemma_first_pos_bounds(s.drop_last(), c);
    }
}

proof fn lemma_two_colons(s: Seq<char>)
    requires
        count_of(s, ':') == 2,
    ensures
        0 <= first_pos(s, ':') < last_pos(s, ':') < s.len(),
    decreases s.len(),
{
    lemma_first_pos_bounds(s, ':');
    lemma_last_pos_bounds(s, ':');
    let t = s.drop_last();
    lemma_first_pos_bounds(t, ':');
    if s.last() != ':' {
        lemma_two_colons(t);
    }
}

/// Splits a `HH:MM:SS` time into its three parts.
pub fn split_time(t: &str) -> (r: Option<(&str, &str, &str)>)
    ensures
        match r {
            Some((h, m, s)) => time_fields(t@) == Some((h@, m@, s@)),
            None => time_fields(t@).is_none(),
        },
{
    let n = t.unicode_len();
    let mut count: usize = 0;
    let mut first: Option<usize> = None;
    let mut last: Option<usize> = None;
    let mut i: usize = 0;
    while i < n
        invariant
            n == t@.len(),
            i <= n,
            count == count_of(t@.take(i as int), ':'),
            count <= i,
            match first {
                Some(a) => a as int == first_pos(t@.take(i as int), ':'),
                None => first_pos(t@.take(i as int), ':') == -1,
            },
            match last {
                Some(b) => b as int == last_pos(t@.take(i as int), ':'),
                None => last_pos(t@.take(i as int), ':') == -1,
            },
        decreases n - i,
    {
        let c = t.get_char(i);
        assert(t@.take(i as int + 1).drop_last() == t@.take(i as int));
        if c == ':' {
            count = count + 1;
            if first.is_none() {
                first = Some(i);
            }
            last = Some(i);
        }
        i = i + 1;
    }
    assert(t@.take(n as int) == t@);
    if count != 2 {
        return None;
    }
    proof {
        lemma_two_colons(t@);
    }
    match (first, last) {
        (Some(p), Some(q)) => Some((t.substring_char(0, p), t.substring_char(p + 1, q), t.substring_char(q + 1, n))),
        _ => None,
    }
}

/// Why a `Date` text could not be turned into a timestamp.
#[derive(PartialEq, Eq, Structural, Debug, Clone, Copy)]
pub enum DateError {
    /// Fewer than six words.
    TooFewFields,
    /// The third word is no month abbreviation from `Jan` to `Dec`.
    UnknownMonth,
    /// The fifth word is not three parts around exactly two colons.
    BadTime,
}

/// A one-character day gets a leading zero.
pub open spec fn padded_day(d: Seq<char>) -> Seq<char> {
    if d.len() == 1 {
        seq!['0'] + d
    } else {
        d
    }
}

/// The `YYYYMMDDHHMMSS` timestamp of a date written
/// `<weekday,> <day> <Mon> <year> <HH:MM:SS> <zone>`.
///
/// The date is split into words at white space. The day is word 1, the month
/// word 2, the year word 3, the time word 4. A date with fewer than six
/// words, an unknown month, or a time not made of three colon-separated parts
/// is refused; nothing is filled in by default.
pub open spec fn timestamp_of(date: Seq<char>) -> Result<Seq<char>, DateError> {
    let w = words(date);
    if w.len() < 6 {
        Err(DateError::TooFewFields)
    } else {
        match month_digits(w[2]) {
            None => Err(DateError::UnknownMonth),
            Some((m1, m2)) => match time_fields(w[4]) {
                None => Err(DateError::BadTime),
                Some((h, mi, sec)) => Ok(w[3] + seq![m1, m2] + padded_day(w[1]) + h + mi + sec),
            },
        }
    }
}

/// Turns a `Date` header text into a `YYYYMMDDHHMMSS` timestamp, or says why
/// it cannot.
pub fn parse_date(date: &str) -> (r: Result<String, DateError>)
    ensures
        match r {
            Ok(t) => timestamp_of(date@) == Ok::<Seq<char>, DateError>(t@),
            Err(e) => timestamp_of(date@) == Err::<Seq<char>, DateError>(e),
        },
{
    let parts = split_words(date);
    assert(parts.deep_view().len() == parts@.len());
    if parts.len() < 6 {
        return Err(DateError::TooFewFields);
    }
    assert(parts.deep_view()[1] == parts@[1]@);
    assert(parts.deep_view()[2] == parts@[2]@);
    assert(parts.deep_view()[3] == parts@[3]@);
    assert(parts.deep_view()[4] == parts@[4]@);
    let day = parts[1].as_str();
    let month = match month_number(parts[2].as_str()) {
        Some(m) => m,
        None => {
            return Err(DateError::UnknownMonth);
        },
    };
    let year = parts[3].as_str();
    let (hour, minute, second) = match split_time(parts[4].as_str()) {
        Some(t) => t,
        None => {
            return Err(DateError::BadTime);
        },
    };
    let mut out = String::from_str(year);
    push_char(&mut out, month.0);
    push_char(&mut out, month.1);
    if day.unicode_len() == 1 {
        push_char(&mut out, '0');
    }
    out.append(day);
    out.append(hour);
    out.append(minute);
    out.append(second);
    assert(out@ =~= timestamp_of(date@)->Ok_0);
    Ok(out)
}

/// The sender fragment used where a message has no `From` line.
pub open spec fn unknown_sender() -> Seq<char> {
    seq!['u', 'n', 'k', 'n', 'o', 'w', 'n', '_', 's', 'e', 'n', 'd', 'e', 'r']
}

/// `<timestamp>_<sender>.eml`
pub open spec fn file_name_of(timestamp: Seq<char>, sender: Seq<char>) -> Seq<char> {
    timestamp + seq!['_'] + sender + seq!['.', 'e', 'm', 'l']
}

/// The timestamp fragment used where a message has no `Date` line: fourteen
/// zeros, so that the name depends on the message alone and sorts first.
pub open spec fn undated() -> Seq<char> {
    seq!['0', '0', '0', '0', '0', '0', '0', '0', '0', '0', '0', '0', '0', '0']
}

/// The file name of a message with the given `From` and `Date` texts.
pub open spec fn message_file_name(
    raw_from: Option<Seq<char>>,
    raw_date: Option<Seq<char>>,
) -> Result<Seq<char>, DateError> {
    let sender = match raw_from {
        Some(f) => sender_fragment(f),
        None => unknown_sender(),
    };
    match raw_date {
        None => Ok(file_name_of(undated(), sender)),
        Some(d) => match timestamp_of(d) {
            Ok(t) => Ok(file_name_of(t, sender)),
            Err(e) => Err(e),
        },
    }
}

pub open spec fn opt_view(s: Option<&str>) -> Option<Seq<char>> {
    match s {
        Some(t) => Some(t@),
        None => None,
    }
}

/// Derives the archive file name of a message from its `From` and `Date`
/// texts. A missing sender becomes `unknown_sender`; a missing date becomes
/// fourteen zeros; a date that is present but malformed is an error.
pub fn derive_file_name(raw_from: Option<&str>, raw_date: Option<&str>) -> (r: Result<
    String,
    DateError,
>)
    ensures
        match r {
            Ok(name) => message_file_name(opt_view(raw_from), opt_view(raw_date))
                == Ok::<Seq<char>, DateError>(name@),
            Err(e) => message_file_name(opt_view(raw_from), opt_view(raw_date))
                == Err::<Seq<char>, DateError>(e),
        },
{
    let mut name = match raw_date {
        Some(d) => match parse_date(d) {
            Ok(t) => t,
            Err(e) => {
                return Err(e);
            },
        },
        None => {
            let zeros = "00000000000000";
            proof {
                reveal_strlit("00000000000000");
            }
            assert(zeros@ =~= undated());
            String::from_str(zeros)
        },
    };
    push_char(&mut name, '_');
    match raw_from {
        Some(f) => {
            let clean = sanitize_filename(f);
            let sender = extract_between_last_brackets(clean.as_str());
            name.append(sender);
        },
        None => {
            let placeholder = "unknown_sender";
            proof {
                reveal_strlit("unknown_sender");
            }
            assert(placeholder@ =~= unknown_sender());
            name.append(placeholder);
        },
    }
    push_char(&mut name, '.');
    push_char(&mut name, 'e');
    push_char(&mut name, 'm');
    push_char(&mut name, 'l');
    assert(name@ =~= message_file_name(opt_view(raw_from), opt_view(raw_date))->Ok_0);
    Ok(name)
}

/// Two date texts with the same words, however the white space around and
/// between them differs, give the same timestamp or the same error.
pub proof fn lemma_date_whitespace_irrelevant(d1: Seq<char>, d2: Seq<char>)
    requires
        words(d1) == words(d2),
    ensures
        timestamp_of(d1) == timestamp_of(d2),
{
}

proof fn lemma_last_pos_absent(s: Seq<char>, c: char)
    requires
        forall|i: int| 0 <= i < s.len() ==> s[i] != c,
    ensures
        last_pos(s, c) == -1,
    decreases s.len(),
{
    if s.len() > 0 {
        assert(s.last() != c);
        lemma_last_pos_absent(s.drop_last(), c);
    }
}

/// A sender text without an angle-bracketed address is kept whole, only
/// lowercased and with spaces turned into underscores.
pub proof fn lemma_unbracketed_sender_kept(raw_from: Seq<char>)
    requires
        (forall|i: int| 0 <= i < sanitized(raw_from).len() ==> sanitized(raw_from)[i] != '<')
            || (forall|i: int| 0 <= i < sanitized(raw_from).len() ==> sanitized(raw_from)[i] != '>'),
    ensures
        sender_fragment(raw_from) == sanitized(raw_from),
{
    let s = sanitized(raw_from);
    if forall|i: int| 0 <= i < s.len() ==> s[i] != '<' {
        lemma_last_pos_absent(s, '<');
    } else {
        lemma_last_pos_absent(s, '>');
    }
}

} // verus!
