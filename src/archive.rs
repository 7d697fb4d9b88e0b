use vstd::prelude::*;
use crate::filename::{
    derive_file_name, file_name_of, message_file_name, sender_fragment, timestamp_of, undated,
    unknown_sender,
    DateError,
};
use crate::ordering::{all_digits, is_digit};
use crate::headers::{header_text, header_value, HeaderValue};

verus! {

/// Why one message could not be given a file name.
#[derive(PartialEq, Eq, Structural, Debug, Clone, Copy)]
pub enum ArchiveError {
    /// The `Date` line is present but malformed.
    Date(DateError),
    /// The `Date` line is not valid UTF-8.
    HeaderNotText,
}

pub open spec fn from_key() -> Seq<u8> {
    seq![102u8, 114u8, 111u8, 109u8, 58u8]
}

pub open spec fn date_key() -> Seq<u8> {
    seq![100u8, 97u8, 116u8, 101u8, 58u8]
}

/// What the `From` line gives the name: its text, or nothing where it is
/// absent or not valid UTF-8, in which case the placeholder sender is used.
pub open spec fn sender_text(body: Seq<u8>) -> Option<Seq<char>> {
    match header_text(body, from_key()) {
        Some(f) => f,
        None => None,
    }
}

/// The file name under which a raw message is archived. It depends on the
/// bytes of the message alone.
pub open spec fn body_file_name(body: Seq<u8>) -> Result<Seq<char>, ArchiveError> {
    match header_text(body, date_key()) {
        Some(d) => match message_file_name(sender_text(body), d) {
            Ok(n) => Ok(n),
            Err(e) => Err(ArchiveError::Date(e)),
        },
        None => Err(ArchiveError::HeaderNotText),
    }
}

/// Locates the `From` and `Date` lines of a raw message and derives its
/// archive file name from them.
pub fn file_name_for_message(body: &[u8]) -> (r: Result<String, ArchiveError>)
    ensures
        match r {
            Ok(name) => body_file_name(body@) == Ok::<Seq<char>, ArchiveError>(name@),
            Err(e) => body_file_name(body@) == Err::<Seq<char>, ArchiveError>(e),
        },
{
    let fkey: Vec<u8> = vec![102u8, 114u8, 111u8, 109u8, 58u8];
    let dkey: Vec<u8> = vec![100u8, 97u8, 116u8, 101u8, 58u8];
    assert(fkey@ =~= from_key());
    assert(dkey@ =~= date_key());
    let from = header_value(body, fkey.as_slice());
    let date = header_value(body, dkey.as_slice());
    let raw_from: Option<&str> = match &from {
        HeaderValue::Text(t) => Some(t.as_str()),
        _ => None,
    };
    let raw_date: Option<&str> = match &date {
        HeaderValue::Text(t) => Some(t.as_str()),
        HeaderValue::Absent => None,
        HeaderValue::NotText => {
            return Err(ArchiveError::HeaderNotText);
        },
    };
    match derive_file_name(raw_from, raw_date) {
        Ok(name) => Ok(name),
        Err(e) => Err(ArchiveError::Date(e)),
    }
}

/// A message without a `Date` line always gets a name, whatever its `From`
/// line holds, and that name starts with the all-digit fragment `undated()`.
pub proof fn lemma_missing_date_is_numeric(body: Seq<u8>)
    requires
        header_text(body, date_key()) == Some(None::<Seq<char>>),
    ensures
        body_file_name(body) is Ok,
        exists|sender: Seq<char>|
            body_file_name(body) == Ok::<Seq<char>, ArchiveError>(file_name_of(undated(), sender)),
        all_digits(undated()),
        undated().len() == 14,
{
    let sender = match sender_text(body) {
        Some(f) => sender_fragment(f),
        None => unknown_sender(),
    };
    assert(body_file_name(body) == Ok::<Seq<char>, ArchiveError>(file_name_of(undated(), sender)));
    assert forall|i: int| 0 <= i < undated().len() implies is_digit(#[trigger] undated()[i]) by {}
}

/// A message without a `From` line is filed under `unknown_sender`.
pub proof fn lemma_missing_sender_placeholder(body: Seq<u8>)
    requires
        header_text(body, from_key()) == Some(None::<Seq<char>>),
        body_file_name(body) is Ok,
    ensures
        exists|timestamp: Seq<char>|
            body_file_name(body) == Ok::<Seq<char>, ArchiveError>(file_name_of(timestamp, unknown_sender())),
{
    let d = header_text(body, date_key())->Some_0;
    let timestamp = match d {
        Some(t) => timestamp_of(t)->Ok_0,
        None => undated(),
    };
    assert(body_file_name(body) == Ok::<Seq<char>, ArchiveError>(file_name_of(timestamp, unknown_sender())));
}

/// The files of one archive directory, by name. Presence of a name is the
/// only record that a message was archived.
pub struct ArchiveIndex {
    names: Vec<String>,
}

/// What to do with a message whose file name is known.
#[derive(PartialEq, Eq, Structural, Debug, Clone, Copy)]
pub enum Decision {
    /// No file of that name exists yet: write the message.
    Write,
    /// A file of that name is already there: leave it alone.
    AlreadyPresent,
}

/// The directory after offering it `names` one by one, and how many of them
/// were new to it.
pub open spec fn run_names(dir: Set<Seq<char>>, names: Seq<Seq<char>>) -> (Set<Seq<char>>, nat)
    decreases names.len(),
{
    if names.len() == 0 {
        (dir, 0)
    } else {
        let (d, c) = run_names(dir, names.drop_last());
        let x = names.last();
        if d.contains(x) {
            (d, c)
        } else {
            (d.insert(x), c + 1)
        }
    }
}

impl View for ArchiveIndex {
    type V = Set<Seq<char>>;

    closed spec fn view(&self) -> Set<Seq<char>> {
        self.names.deep_view().to_set()
    }
}

impl ArchiveIndex {
    /// A directory that holds the given files.
    pub fn new(existing: Vec<String>) -> (r: Self)
        ensures
            r@ == existing.deep_view().to_set(),
    {
        ArchiveIndex { names: existing }
    }

    /// Whether a file of this name is present.
    pub fn contains(&self, name: &String) -> (r: bool)
        ensures
            r == self@.contains(name@),
    {
        let n = self.names.len();
        let mut i: usize = 0;
        while i < n
            invariant
                n == self.names@.len(),
                i <= n,
                forall|j: int| 0 <= j < i ==> self.names@[j]@ != name@,
            decreases n - i,
        {
            if self.names[i] == *name {
                assert(self.names.deep_view()[i as int] == name@);
                return true;
            }
            i = i + 1;
        }
        assert forall|x: Seq<char>| self.names.deep_view().contains(x) implies x != name@ by {
            let j = choose|j: int| 0 <= j < n && self.names.deep_view()[j] == x;
            assert(self.names.deep_view()[j] == self.names@[j]@);
        }
        false
    }

    /// Decides whether a message filed under `name` is written, and records
    /// the name as present.
    pub fn offer(&mut self, name: String) -> (r: Decision)
        ensures
            final(self)@ == old(self)@.insert(name@),
            r == (if old(self)@.contains(name@) { Decision::AlreadyPresent } else { Decision::Write }),
    {
        if self.contains(&name) {
            assert(self@.insert(name@) =~= self@);
            Decision::AlreadyPresent
        } else {
            let ghost before = self.names.deep_view();
            let ghost v = name@;
            self.names.push(name);
            assert(self.names.deep_view() =~= before.push(v));
            proof {
                before.lemma_push_to_set_commute(v);
            }
            Decision::Write
        }
    }

    /// Offers each name in turn and counts those that are written.
    pub fn offer_all(&mut self, names: &Vec<String>) -> (r: usize)
        ensures
            (final(self)@, r as nat) == run_names(old(self)@, names.deep_view()),
    {
        let n = names.len();
        let mut count: usize = 0;
        let mut i: usize = 0;
        while i < n
            invariant
                n == names@.len(),
                i <= n,
                count <= i,
                (self@, count as nat) == run_names(old(self)@, names.deep_view().take(i as int)),
            decreases n - i,
        {
            let ghost prefix = names.deep_view().take(i as int + 1);
            assert(prefix.drop_last() == names.deep_view().take(i as int));
            assert(prefix.last() == names@[i as int]@);
            let d = self.offer(names[i].clone());
            if d == Decision::Write {
                count = count + 1;
            }
            i = i + 1;
        }
        assert(names.deep_view().take(n as int) =~= names.deep_view());
        count
    }
}

proof fn lemma_run_names_grows(dir: Set<Seq<char>>, names: Seq<Seq<char>>)
    ensures
        run_names(dir, names).0 == dir.union(names.to_set()),
    decreases names.len(),
{
    if names.len() > 0 {
        let p = names.drop_last();
        lemma_run_names_grows(dir, p);
        assert(names == p.push(names.last()));
        p.lemma_push_to_set_commute(names.last());
        assert(dir.union(p.to_set()).insert(names.last()) =~= dir.union(names.to_set()));
        assert(dir.union(p.to_set()).contains(names.last()) ==> dir.union(p.to_set()) =~= dir.union(names.to_set()));
    }
}

proof fn lemma_run_names_known(dir: Set<Seq<char>>, names: Seq<Seq<char>>)
    requires
        forall|k: int| 0 <= k < names.len() ==> dir.contains(#[trigger] names[k]),
    ensures
        run_names(dir, names) == (dir, 0nat),
    decreases names.len(),
{
    if names.len() > 0 {
        let p = names.drop_last();
        assert forall|k: int| 0 <= k < p.len() implies dir.contains(#[trigger] p[k]) by {
            assert(p[k] == names[k]);
        }
        lemma_run_names_known(dir, p);
        assert(dir.contains(names[names.len() - 1]));
    }
}

/// Offering the same names twice: the first run leaves every name present,
/// and the second run writes nothing and leaves the directory as the first
/// run left it.
pub proof fn lemma_archive_idempotent(dir: Set<Seq<char>>, names: Seq<Seq<char>>)
    ensures
        run_names(run_names(dir, names).0, names) == (run_names(dir, names).0, 0nat),
        run_names(dir, names).0 == dir.union(names.to_set()),
{
    lemma_run_names_grows(dir, names);
    let d = run_names(dir, names).0;
    assert forall|k: int| 0 <= k < names.len() implies d.contains(#[trigger] names[k]) by {
        assert(names.to_set().contains(names[k]));
    }
    lemma_run_names_known(d, names);
}

/// The names of messages that all get one.
pub open spec fn body_names(bodies: Seq<Seq<u8>>) -> Seq<Seq<char>> {
    bodies.map_values(|b: Seq<u8>| body_file_name(b)->Ok_0)
}

/// Archiving the same messages twice, at any two times: since a name depends
/// on the message alone, the second run writes nothing and leaves the
/// directory as the first run left it.
pub proof fn lemma_rerun_writes_nothing(dir: Set<Seq<char>>, bodies: Seq<Seq<u8>>)
    requires
        forall|i: int| 0 <= i < bodies.len() ==> body_file_name(#[trigger] bodies[i]) is Ok,
    ensures
        run_names(run_names(dir, body_names(bodies)).0, body_names(bodies))
            == (run_names(dir, body_names(bodies)).0, 0nat),
{
    lemma_archive_idempotent(dir, body_names(bodies));
}

} // verus!
