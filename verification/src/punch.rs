//! Settings of the load-test command: the target, the request shape, and the
//! schedule. The outward HTTP machinery lives elsewhere; what is computed
//! from these settings — the run length in seconds and the header text split
//! into name/value pairs — is defined and checked here.

use vstd::prelude::*;
use crate::record::push_char;

verus! {

/// Time unit of the load-test duration.
#[derive(Clone, Copy, PartialEq, Eq, Structural, Debug)]
pub enum ChronoUnit {
    Second,
    Minute,
    Hour,
}

/// HTTP method of the generated requests.
#[derive(Clone, Copy, PartialEq, Eq, Structural, Debug)]
pub enum Method {
    Options,
    Get,
    Post,
    Put,
    Delete,
    Head,
    Trace,
    Connect,
    Patch,
}

/// A header line that carries no colon cannot be split into a name and a
/// value.
#[derive(Debug, PartialEq, Eq, Structural, Clone, Copy)]
pub enum HeaderError {
    MissingColon,
}

/// Settings of one load-test run.
pub struct Punch {
    /// Target URL.
    pub url: String,
    /// Header lines, each of the form `Name: Value`.
    pub headers: Vec<String>,
    /// HTTP method.
    pub method: Method,
    /// How many worker threads to start.
    pub thread_count: u16,
    /// How many requests per second to drive.
    pub rps: u64,
    /// How long to run, counted in `duration_unit`.
    pub duration: u64,
    /// The unit that `duration` counts.
    pub duration_unit: ChronoUnit,
    /// Body of each request.
    pub body: String,
}

pub open spec fn unit_seconds(u: ChronoUnit) -> int {
    match u {
        ChronoUnit::Second => 1,
        ChronoUnit::Minute => 60,
        ChronoUnit::Hour => 3600,
    }
}

/// ASCII whitespace, removed from header lines before they are split.
pub open spec fn is_ws(c: char) -> bool {
    c == ' ' || c == '\t' || c == '\n' || c == '\r'
}

/// The header line with its ASCII whitespace removed.
pub open spec fn stripped(s: Seq<char>) -> Seq<char>
    decreases s.len(),
{
    if s.len() == 0 {
        Seq::empty()
    } else if is_ws(s.last()) {
        stripped(s.drop_last())
    } else {
        stripped(s.drop_last()).push(s.last())
    }
}

/// The index of the first colon of `s`, if any.
pub open spec fn first_colon(s: Seq<char>) -> Option<int>
    decreases s.len(),
{
    if s.len() == 0 {
        None
    } else {
        match first_colon(s.drop_last()) {
            Some(i) => Some(i),
            None => if s.last() == ':' {
                Some(s.len() - 1)
            } else {
                None
            },
        }
    }
}

/// How one header line is read: whitespace removed, the name is the text
/// before the first colon and the value the text between the first and the
/// second colon (or the end); a line without a colon has no pair.
pub open spec fn header_pair(s: Seq<char>) -> Option<(Seq<char>, Seq<char>)> {
    let t = stripped(s);
    match first_colon(t) {
        None => None,
        Some(i) => {
            let rest = t.subrange(i + 1, t.len() as int);
            let v = match first_colon(rest) {
                None => rest,
                Some(j) => rest.subrange(0, j),
            };
            Some((t.subrange(0, i), v))
        },
    }
}

proof fn lemma_first_colon_character(s: Seq<char>)
    ensures
        match first_colon(s) {
            Some(j) => 0 <= j < s.len() && s[j] == ':' && forall|k: int| 0 <= k < j ==> s[k] != ':',
            None => forall|k: int| 0 <= k < s.len() ==> s[k] != ':',
        },
    decreases s.len(),
{
    if s.len() > 0 {
        lemma_first_colon_character(s.drop_last());
        match first_colon(s.drop_last()) {
            Some(j) => {
                assert(s.drop_last()[j] == s[j]);
                assert forall|k: int| 0 <= k < j implies s[k] != ':' by {
                    assert(s.drop_last()[k] != ':');
                }
            },
            None => {
                if s.last() != ':' {
                    assert forall|k: int| 0 <= k < s.len() implies s[k] != ':' by {
                        if k < s.len() - 1 {
                            assert(s.drop_last()[k] != ':');
                        }
                    }
                } else {
                    assert forall|k: int| 0 <= k < s.len() - 1 implies s[k] != ':' by {
                        assert(s.drop_last()[k] != ':');
                    }
                }
            },
        }
    }
}

/// Removes ASCII whitespace from a header line.
#[verifier::loop_isolation(false)]
fn strip_ws(s: &str) -> (r: String)
    ensures
        r@ == stripped(s@),
{
    let len = s.unicode_len();
    let mut out = String::new();
    let mut i: usize = 0;
    while i < len
        invariant
            i <= len,
            out@ == stripped(s@.subrange(0, i as int)),
        decreases len - i,
    {
        let ghost pre = s@.subrange(0, i as int);
        proof {
            assert(s@.subrange(0, i as int + 1) =~= pre.push(s@[i as int]));
            assert(pre.push(s@[i as int]).drop_last() =~= pre);
        }
        let c = s.get_char(i);
        if !(c == ' ' || c == '\t' || c == '\n' || c == '\r') {
            push_char(&mut out, c);
            proof {
                assert(out@ =~= stripped(s@.subrange(0, i as int + 1)));
            }
        }
        i = i + 1;
    }
    proof {
        assert(s@.subrange(0, len as int) =~= s@);
    }
    out
}

/// Finds the first colon at or after `from`, or the length if none.
#[verifier::loop_isolation(false)]
fn scan_colon(t: &str, from: usize) -> (r: usize)
    requires
        from <= t@.len(),
    ensures
        from <= r <= t@.len(),
        r < t@.len() ==> t@[r as int] == ':',
        forall|k: int| from <= k < r ==> t@[k] != ':',
    decreases t@.len() - from,
{
    let len = t.unicode_len();
    let mut i: usize = from;
    let mut found: usize = len;
    while i < len && found == len
        invariant
            from <= i <= len,
            found == len || (i == found && found < len && t@[found as int] == ':'),
            forall|k: int| from <= k < i ==> t@[k] != ':',
        decreases len - i + (if found == len {
            1int
        } else {
            0int
        }),
    {
        if t.get_char(i) == ':' {
            found = i;
        } else {
            i = i + 1;
        }
    }
    found
}

impl Punch {
    /// The run length in whole seconds, or nothing when it exceeds the
    /// 64-bit range.
    pub fn duration_seconds(&self) -> (r: Option<u64>)
        ensures
            match r {
                Some(v) => v as int == self.duration * unit_seconds(self.duration_unit),
                None => self.duration * unit_seconds(self.duration_unit) > u64::MAX,
            },
    {
        match self.duration_unit {
            ChronoUnit::Second => Some(self.duration),
            ChronoUnit::Minute => {
                if self.duration <= u64::MAX / 60 {
                    Some(self.duration * 60)
                } else {
                    None
                }
            },
            ChronoUnit::Hour => {
                if self.duration <= u64::MAX / 3600 {
                    Some(self.duration * 3600)
                } else {
                    None
                }
            },
        }
    }

    pub fn get_rps(&self) -> (r: u64)
        ensures
            r == self.rps,
    {
        self.rps
    }

    pub fn get_thread_count(&self) -> (r: u16)
        ensures
            r == self.thread_count,
    {
        self.thread_count
    }

    /// Splits every header line into its name/value pair, exactly as
    /// `header_pair` describes; a line without a colon fails the whole list.
    #[verifier::loop_isolation(false)]
    pub fn header_pairs(&self) -> (r: Result<Vec<(String, String)>, HeaderError>)
        ensures
            r is Ok <==> (forall|i: int|
                0 <= i < self.headers@.len() ==> header_pair(#[trigger] self.headers@[i]@)
                    is Some),
            r matches Ok(v) ==> v@.len() == self.headers@.len() && forall|i: int|
                0 <= i < v@.len() ==> (#[trigger] v@[i]).0@ == (header_pair(
                    self.headers@[i]@,
                )->0).0 && v@[i].1@ == (header_pair(self.headers@[i]@)->0).1,
            r is Err ==> r == Err::<Vec<(String, String)>, HeaderError>(HeaderError::MissingColon),
    {
        let mut out: Vec<(String, String)> = Vec::new();
        let mut i: usize = 0;
        while i < self.headers.len()
            invariant
                i <= self.headers@.len(),
                out@.len() == i,
                forall|k: int|
                    0 <= k < i ==> header_pair(#[trigger] self.headers@[k]@) is Some,
                forall|k: int|
                    0 <= k < i ==> (#[trigger] out@[k]).0@ == (header_pair(
                        self.headers@[k]@,
                    )->0).0 && out@[k].1@ == (header_pair(self.headers@[k]@)->0).1,
            decreases self.headers@.len() - i,
        {
            let t = strip_ws(self.headers[i].as_str());
            proof {
                lemma_first_colon_character(t@);
            }
            let tlen = t.as_str().unicode_len();
            let c1 = scan_colon(t.as_str(), 0);
            if c1 == tlen {
                proof {
                    if first_colon(t@) is Some {
                        assert(t@[first_colon(t@)->0] != ':');
                        assert(false);
                    }
                }
                return Err(HeaderError::MissingColon);
            }
            proof {
                match first_colon(t@) {
                    Some(j) => {
                        if j < c1 as int {
                            assert(t@[j] != ':');
                            assert(false);
                        }
                        if j > c1 as int {
                            assert(t@[c1 as int] != ':');
                            assert(false);
                        }
                    },
                    None => {
                        assert(t@[c1 as int] != ':');
                        assert(false);
                    },
                }
                assert(first_colon(t@) == Some(c1 as int));
            }
            let c2 = scan_colon(t.as_str(), c1 + 1);
            let ghost rest = t@.subrange(c1 as int + 1, t@.len() as int);
            proof {
                lemma_first_colon_character(rest);
                assert forall|k: int| 0 <= k < rest.len() implies rest[k] == t@[k + c1 + 1] by {}
                match first_colon(rest) {
                    Some(j) => {
                        if j + c1 + 1 < c2 as int {
                            assert(t@[j + c1 + 1] != ':');
                            assert(false);
                        }
                        if c2 < tlen && (j + c1 + 1 > c2 as int) {
                            assert(rest[c2 as int - c1 - 1] != ':');
                            assert(false);
                        }
                        if c2 == tlen {
                            assert(rest[j] == ':');
                            assert(t@[j + c1 + 1] != ':');
                            assert(false);
                        }
                    },
                    None => {
                        if c2 < tlen {
                            assert(rest[c2 as int - c1 - 1] == ':');
                            assert(false);
                        }
                    },
                }
            }
            let name = String::from_str(t.as_str().substring_char(0, c1));
            let value = String::from_str(t.as_str().substring_char(c1 + 1, c2));
            proof {
                assert(name@ == (header_pair(self.headers@[i as int]@)->0).0);
                if c2 < tlen {
                    assert(value@ =~= rest.subrange(0, c2 as int - c1 - 1));
                } else {
                    assert(value@ =~= rest);
                }
            }
            out.push((name, value));
            i = i + 1;
        }
        Ok(out)
    }
}

} // verus!
