//! Aggregation configuration: which fields are counted and which percentile
//! summaries are requested, and how long one window lasts.

use vstd::prelude::*;
use crate::decimal::{parse_dec, parse_decimal};
use crate::record::push_char;

verus! {

/// Percentile values are carried as thousandths of a percent ("milli-percent"),
/// so that `0`, `50`, `99.9` become `0`, `50_000`, `99_900`. A value is valid
/// when it lies between 0 and 100 percent inclusive.
pub const MILLI_PERCENT_MAX: u32 = 100_000;

/// A percentile request: for the JSON field `agg_key`, report the listed
/// percentiles of the numeric values found there in each window.
#[derive(Debug)]
pub struct Percentiles {
    pub agg_key: String,
    pub percentiles: Vec<u32>,
}

impl Percentiles {
    /// All requested percentiles lie in [0, 100] percent and the target key is
    /// non-empty.
    pub open spec fn well_formed(self) -> bool {
        &&& self.agg_key@.len() > 0
        &&& forall|i: int|
            0 <= i < self.percentiles@.len() ==> self.percentiles@[i] <= MILLI_PERCENT_MAX
    }
}

impl Clone for Percentiles {
    fn clone(&self) -> (res: Self)
        ensures
            res.agg_key@ == self.agg_key@,
            res.percentiles@ == self.percentiles@,
    {
        let ps = self.percentiles.clone();
        proof {
            assert forall|i: int| 0 <= i < ps@.len() implies ps@[i] == self.percentiles@[i] by {
                assert(vstd::pervasive::cloned::<u32>(self.percentiles@[i], ps@[i]));
            }
            assert(ps@ =~= self.percentiles@);
        }
        Percentiles { agg_key: self.agg_key.clone(), percentiles: ps }
    }
}

/// Configuration of one aggregation run.
#[derive(Debug)]
pub struct Aggregate {
    /// Window length in seconds.
    pub period: u64,
    /// JSON fields whose scalar values are counted per window.
    pub count_values: Vec<String>,
    /// Percentile requests evaluated per window.
    pub percentiles: Vec<Percentiles>,
}

impl Aggregate {
    pub open spec fn well_formed(self) -> bool {
        &&& self.period > 0
        &&& forall|i: int|
            0 <= i < self.percentiles@.len() ==> (#[trigger] self.percentiles@[i]).well_formed()
    }

    /// A run must configure at least one aggregation, else it has nothing to do.
    pub fn is_valid(&self) -> (r: bool)
        ensures
            r == (self.count_values@.len() > 0 || self.percentiles@.len() > 0),
    {
        !self.count_values.is_empty() || !self.percentiles.is_empty()
    }
}

/// Why a configuration is rejected before the pipeline starts.
#[derive(Debug, PartialEq, Eq, Structural, Clone, Copy)]
pub enum ConfigError {
    /// A percentile request lacks the colon between percentiles and key.
    MissingKeySeparator,
    /// A percentile request names no field key after the colon.
    EmptyKey,
    /// A percentile is not a number in [0, 100] with at most three decimals.
    BadPercentile,
}

/// The index of the last colon of `s`, if any: a percentile request is split
/// there, so the key may not contain a colon while percentiles may.
pub open spec fn last_colon(s: Seq<char>) -> Option<int>
    decreases s.len(),
{
    if s.len() == 0 {
        None
    } else if s.last() == ':' {
        Some(s.len() - 1)
    } else {
        last_colon(s.drop_last())
    }
}

/// The comma-separated parts of `s`, always at least one, possibly empty.
pub open spec fn split_commas(s: Seq<char>) -> Seq<Seq<char>>
    decreases s.len(),
{
    if s.len() == 0 {
        seq![Seq::empty()]
    } else if s.last() == ',' {
        split_commas(s.drop_last()).push(Seq::empty())
    } else {
        let rest = split_commas(s.drop_last());
        rest.update(rest.len() - 1, rest.last().push(s.last()))
    }
}

pub proof fn lemma_split_commas_len(s: Seq<char>)
    ensures
        split_commas(s).len() >= 1,
    decreases s.len(),
{
    if s.len() > 0 {
        lemma_split_commas_len(s.drop_last());
    }
}

/// The percentile a part denotes, in thousandths of a percent: a decimal
/// number in [0, 100] with at most three fractional digits; anything else
/// denotes nothing.
pub open spec fn parse_milli_percent(part: Seq<char>) -> Option<int> {
    match parse_dec(part) {
        Some(v) => if 0 <= v <= 100000000000 && v % 1000000 == 0 {
            Some(v / 1000000)
        } else {
            None
        },
        None => None,
    }
}

/// The milli-percent values of all parts, or nothing if any part is invalid.
pub open spec fn millis_of(parts: Seq<Seq<char>>) -> Option<Seq<int>>
    decreases parts.len(),
{
    if parts.len() == 0 {
        Some(Seq::empty())
    } else {
        match millis_of(parts.drop_last()) {
            Some(rest) => match parse_milli_percent(parts.last()) {
                Some(m) => Some(rest.push(m)),
                None => None,
            },
            None => None,
        }
    }
}

/// The percentile list as mathematical integers.
pub open spec fn milli_view(ms: Seq<u32>) -> Seq<int> {
    ms.map_values(|m: u32| m as int)
}

/// How a percentile request string is read: split at the last colon into the
/// percentile list and the field key; the key must be non-empty and every
/// comma-separated percentile must be valid.
pub open spec fn parse_percentiles(s: Seq<char>) -> Result<(Seq<char>, Seq<int>), ConfigError> {
    match last_colon(s) {
        None => Err(ConfigError::MissingKeySeparator),
        Some(ci) => {
            let key = s.subrange(ci + 1, s.len() as int);
            if key.len() == 0 {
                Err(ConfigError::EmptyKey)
            } else {
                match millis_of(split_commas(s.subrange(0, ci))) {
                    Some(ms) => Ok((key, ms)),
                    None => Err(ConfigError::BadPercentile),
                }
            }
        },
    }
}

proof fn lemma_last_colon_character(s: Seq<char>)
    ensures
        match last_colon(s) {
            Some(j) => 0 <= j < s.len() && s[j] == ':' && forall|k: int|
                j < k < s.len() ==> s[k] != ':',
            None => forall|k: int| 0 <= k < s.len() ==> s[k] != ':',
        },
    decreases s.len(),
{
    if s.len() > 0 {
        lemma_last_colon_character(s.drop_last());
        if s.last() != ':' {
            match last_colon(s.drop_last()) {
                Some(j) => {
                    assert forall|k: int| j < k < s.len() implies s[k] != ':' by {
                        if k < s.len() - 1 {
                            assert(s.drop_last()[k] != ':');
                        }
                    }
                },
                None => {
                    assert forall|k: int| 0 <= k < s.len() implies s[k] != ':' by {
                        if k < s.len() - 1 {
                            assert(s.drop_last()[k] != ':');
                        }
                    }
                },
            }
        }
    }
}

fn parse_milli(part: &str) -> (r: Option<u32>)
    ensures
        r is Some <==> parse_milli_percent(part@) is Some,
        r is Some ==> Some(r->0 as int) == parse_milli_percent(part@),
{
    match parse_decimal(part) {
        Some(v) => {
            if 0 <= v && v <= 100000000000 && v % 1000000 == 0 {
                Some((v / 1000000) as u32)
            } else {
                None
            }
        },
        None => None,
    }
}

proof fn lemma_millis_of_failure(parts: Seq<Seq<char>>, k: int)
    requires
        0 <= k < parts.len(),
        parse_milli_percent(parts[k]) is None,
    ensures
        millis_of(parts) is None,
    decreases parts.len(),
{
    if parts.len() > 0 {
        if k < parts.len() - 1 {
            lemma_millis_of_failure(parts.drop_last(), k);
        }
    }
}

impl Percentiles {
    /// Reads a percentile request of the form `p1,p2,...:key`, exactly as
    /// `parse_percentiles` describes: the text before the last colon is the
    /// comma-separated percentile list, the text after it the field key.
    #[verifier::loop_isolation(false)]
    pub fn from_str(s: &str) -> (r: Result<Percentiles, ConfigError>)
        ensures
            match (r, parse_percentiles(s@)) {
                (Ok(p), Ok(ks)) => {
                    &&& p.agg_key@ == ks.0
                    &&& milli_view(p.percentiles@) == ks.1
                    &&& p.well_formed()
                },
                (Err(e1), Err(e2)) => e1 == e2,
                _ => false,
            },
    {
        proof {
            lemma_last_colon_character(s@);
        }
        let len = s.unicode_len();
        // find the last colon
        let mut colon: usize = len;
        let mut j: usize = len;
        while j > 0 && colon == len
            invariant
                0 <= j <= len,
                colon <= len,
                len == s@.len(),
                colon == len ==> forall|k: int| j <= k < len ==> s@[k] != ':',
                colon < len ==> colon == j && s@[colon as int] == ':' && forall|k: int|
                    colon < k < len ==> s@[k] != ':',
            decreases j,
        {
            if s.get_char(j - 1) == ':' {
                colon = j - 1;
            }
            j = j - 1;
        }
        if colon == len {
            proof {
                if last_colon(s@) is Some {
                    let ci = last_colon(s@)->0;
                    assert(s@[ci] != ':');
                    assert(false);
                }
            }
            return Err(ConfigError::MissingKeySeparator);
        }
        proof {
            match last_colon(s@) {
                Some(ci) => {
                    if ci < colon as int {
                        assert(s@[colon as int] != ':');
                        assert(false);
                    }
                    if ci > colon as int {
                        assert(s@[ci] != ':');
                        assert(false);
                    }
                },
                None => {
                    assert(s@[colon as int] != ':');
                    assert(false);
                },
            }
            assert(last_colon(s@) == Some(colon as int));
        }
        let key = s.substring_char(colon + 1, len);
        if key.unicode_len() == 0 {
            proof {
                assert(key@ =~= s@.subrange(colon as int + 1, len as int));
            }
            return Err(ConfigError::EmptyKey);
        }
        let pstr = s.substring_char(0, colon);
        let ghost parts = split_commas(pstr@);
        // split the percentile list at commas
        let mut pieces: Vec<String> = Vec::new();
        let mut cur = String::new();
        let plen = pstr.unicode_len();
        let mut i: usize = 0;
        while i < plen
            invariant
                i <= plen,
                plen == pstr@.len(),
                split_commas(pstr@.subrange(0, i as int)) == crate::aggregation::lines_of(
                    pieces@,
                ).push(cur@),
            decreases plen - i,
        {
            let ghost pre = pstr@.subrange(0, i as int);
            proof {
                assert(pstr@.subrange(0, i as int + 1) =~= pre.push(pstr@[i as int]));
                assert(pre.push(pstr@[i as int]).drop_last() =~= pre);
            }
            let c = pstr.get_char(i);
            if c == ',' {
                pieces.push(cur);
                cur = String::new();
                proof {
                    assert(crate::aggregation::lines_of(pieces@).push(cur@) =~~= split_commas(
                        pstr@.subrange(0, i as int + 1),
                    ));
                }
            } else {
                push_char(&mut cur, c);
                proof {
                    let old_parts = split_commas(pre);
                    assert(old_parts.len() >= 1) by {
                        lemma_split_commas_len(pre);
                    }
                    assert(crate::aggregation::lines_of(pieces@).push(cur@) =~~= old_parts.update(
                        old_parts.len() - 1,
                        old_parts.last().push(pstr@[i as int]),
                    ));
                }
            }
            i = i + 1;
        }
        pieces.push(cur);
        proof {
            assert(pstr@.subrange(0, plen as int) =~= pstr@);
            assert(crate::aggregation::lines_of(pieces@) =~~= parts);
        }
        // parse every piece
        let mut ms: Vec<u32> = Vec::new();
        let mut k: usize = 0;
        while k < pieces.len()
            invariant
                k <= pieces@.len(),
                crate::aggregation::lines_of(pieces@) == parts,
                millis_of(parts.subrange(0, k as int)) == Some(milli_view(ms@)),
                forall|t: int| 0 <= t < ms@.len() ==> (#[trigger] ms@[t]) <= 100000,
            decreases pieces@.len() - k,
        {
            let ghost ppre = parts.subrange(0, k as int);
            proof {
                assert(parts.subrange(0, k as int + 1) =~= ppre.push(parts[k as int]));
                assert(ppre.push(parts[k as int]).drop_last() =~= ppre);
                assert(parts[k as int] == pieces@[k as int]@);
            }
            match parse_milli(pieces[k].as_str()) {
                Some(m) => {
                    ms.push(m);
                    proof {
                        assert(milli_view(ms@) =~= millis_of(parts.subrange(0, k as int + 1))->0);
                        assert(millis_of(parts.subrange(0, k as int + 1)) == Some(
                            milli_view(ms@),
                        ));
                    }
                },
                None => {
                    proof {
                        lemma_millis_of_failure(parts, k as int);
                    }
                    return Err(ConfigError::BadPercentile);
                },
            }
            k = k + 1;
        }
        proof {
            assert(parts.subrange(0, pieces@.len() as int) =~= parts);
        }
        let p = Percentiles { agg_key: String::from_str(key), percentiles: ms };
        proof {
            assert(p.agg_key@ =~= s@.subrange(colon as int + 1, len as int));
            assert forall|i: int|
                0 <= i < p.percentiles@.len() implies p.percentiles@[i] <= MILLI_PERCENT_MAX by {
                assert(milli_view(p.percentiles@)[i] == p.percentiles@[i] as int);
            }
        }
        Ok(p)
    }
}

} // verus!
