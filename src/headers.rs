use vstd::prelude::*;
use crate::text::{decode_utf8, trim, trimmed};

verus! {

/// ASCII lowercase of a byte; other bytes stay as they are.
pub open spec fn ascii_lower(b: u8) -> u8 {
    if 65 <= b && b <= 90 {
        (b + 32) as u8
    } else {
        b
    }
}

/// Whether a line begins at `i`: at the start of the text or after a newline.
pub open spec fn line_start(body: Seq<u8>, i: int) -> bool {
    i == 0 || (0 < i <= body.len() && body[i - 1] == 10)
}

/// Whether the bytes at `i` equal `key`, ignoring ASCII case.
pub open spec fn key_at(body: Seq<u8>, key: Seq<u8>, i: int) -> bool {
    0 <= i && i + key.len() <= body.len()
        && forall|k: int| 0 <= k < key.len() ==> #[trigger] ascii_lower(body[i + k]) == key[k]
}

/// Whether a line beginning at `i` starts with `key`, in any ASCII case.
pub open spec fn header_line_at(body: Seq<u8>, key: Seq<u8>, i: int) -> bool {
    line_start(body, i) && key_at(body, key, i)
}

/// Where the first line at or after `i` that starts with `key` begins.
pub open spec fn first_header_from(body: Seq<u8>, key: Seq<u8>, i: int) -> Option<int>
    decreases body.len() - i,
{
    if i < 0 || i >= body.len() {
        None
    } else if header_line_at(body, key, i) {
        Some(i)
    } else {
        first_header_from(body, key, i + 1)
    }
}

/// End of the line that holds position `i`: the next newline, or the end.
pub open spec fn line_end(body: Seq<u8>, i: int) -> int
    decreases body.len() - i,
{
    if i < 0 || i >= body.len() || body[i] == 10 {
        i
    } else {
        line_end(body, i + 1)
    }
}

/// What the first line starting with `key` holds after the key: its raw
/// bytes, without the line break.
pub open spec fn header_bytes(body: Seq<u8>, key: Seq<u8>) -> Option<Seq<u8>> {
    match first_header_from(body, key, 0) {
        Some(i) => Some(body.subrange(i + key.len(), line_end(body, i + key.len()))),
        None => None,
    }
}

/// The value of a header, as the message holds it.
pub enum HeaderValue {
    /// No line starts with the key.
    Absent,
    /// The text after the key, without surrounding white space.
    Text(String),
    /// The text after the key is not valid UTF-8.
    NotText,
}

/// The value of the first line that starts with `key`, decoded and trimmed:
/// `Some(None)` where no line starts with it, `None` where the rest of that
/// line is not valid UTF-8.
pub open spec fn header_text(body: Seq<u8>, key: Seq<u8>) -> Option<Option<Seq<char>>> {
    match header_bytes(body, key) {
        None => Some(None),
        Some(b) => if vstd::utf8::valid_utf8(b) {
            Some(Some(trimmed(vstd::utf8::decode_utf8(b))))
        } else {
            None
        },
    }
}

impl HeaderValue {
    /// What the value says of the header, in the terms of `header_text`.
    pub open spec fn view_text(&self) -> Option<Option<Seq<char>>> {
        match self {
            HeaderValue::Absent => Some(None),
            HeaderValue::Text(t) => Some(Some(t@)),
            HeaderValue::NotText => None,
        }
    }
}

proof fn lemma_line_end_bounds(body: Seq<u8>, i: int)
    requires
        0 <= i <= body.len(),
    ensures
        i <= line_end(body, i) <= body.len(),
    decreases body.len() - i,
{
    if i < body.len() && body[i] != 10 {
        lemma_line_end_bounds(body, i + 1);
    }
}

/// Finds the first line that starts with `key` (given in lowercase), ignoring
/// ASCII case, and returns the rest of that line.
pub fn header_value(body: &[u8], key: &[u8]) -> (r: HeaderValue)
    ensures
        r.view_text() == header_text(body@, key@),
{
    let n = body.len();
    let m = key.len();
    let mut i: usize = 0;
    let mut found: Option<usize> = None;
    while i < n
        invariant_except_break
            found.is_none(),
        invariant
            n == body@.len(),
            m == key@.len(),
            i <= n,
            first_header_from(body@, key@, 0) == first_header_from(body@, key@, i as int),
        ensures
            match found {
                Some(s) => s == i && i < n && header_line_at(body@, key@, i as int),
                None => i == n,
            },
        decreases n - i,
    {
        if i == 0 || body[i - 1] == 10 {
            if m <= n - i {
                let mut k: usize = 0;
                let mut same = true;
                while k < m
                    invariant
                        n == body@.len(),
                        m == key@.len(),
                        i + m <= n,
                        k <= m,
                        same == forall|j: int| 0 <= j < k ==> #[trigger] ascii_lower(body@[i + j]) == key@[j],
                    decreases m - k,
                {
                    let b = body[i + k];
                    let lb = if 65 <= b && b <= 90 { b + 32 } else { b };
                    assert(lb == ascii_lower(body@[i + k]));
                    let ghost prev = same;
                    if lb != key[k] {
                        same = false;
                    }
                    k = k + 1;
                    assert(same == forall|j: int| 0 <= j < k ==> #[trigger] ascii_lower(body@[i + j]) == key@[j]) by {
                        if prev && lb == key@[k - 1] {
                            assert forall|j: int| 0 <= j < k implies #[trigger] ascii_lower(body@[i + j]) == key@[j] by {
                                if j < k - 1 {
                                } else {
                                    assert(j == k - 1);
                                }
                            }
                        }
                        if !same {
                            if !prev {
                                let w = choose|j: int| 0 <= j < k - 1 && !(#[trigger] ascii_lower(body@[i + j]) == key@[j]);
                                assert(!(ascii_lower(body@[i + w]) == key@[w]));
                            } else {
                                assert(!(ascii_lower(body@[i + (k - 1)]) == key@[k - 1]));
                            }
                        }
                    }
                }
                if same {
                    found = Some(i);
                    break;
                }
                assert(!key_at(body@, key@, i as int)) by {
                    let w = choose|j: int| 0 <= j < m && !(#[trigger] ascii_lower(body@[i + j]) == key@[j]);
                    assert(!(ascii_lower(body@[i + w]) == key@[w]));
                }
            }
        }
        i = i + 1;
    }
    let start = match found {
        Some(s) => s,
        None => {
            return HeaderValue::Absent;
        },
    };
    assert(first_header_from(body@, key@, 0) == Some(start as int));
    proof {
        lemma_line_end_bounds(body@, (start + m) as int);
    }
    let v = start + m;
    let mut e: usize = v;
    while e < n && body[e] != 10
        invariant
            n == body@.len(),
            v <= e <= n,
            line_end(body@, v as int) == line_end(body@, e as int),
        decreases n - e,
    {
        e = e + 1;
    }
    let raw = &body[v..e];
    assert(raw@ == header_bytes(body@, key@)->Some_0);
    match decode_utf8(raw) {
        Some(text) => HeaderValue::Text(trim(text.as_str()).to_owned()),
        None => HeaderValue::NotText,
    }
}

} // verus!
