//! The latest-file selector: of the directory entries whose name starts with
//! a given prefix, pick the one with the newest timestamp embedded in its
//! name.
//!
//! The timestamp is the 19-character window at character indices 10 through
//! 28 of the filename. A matching name too short to hold the window, or
//! whose window does not parse, is a configuration error and is reported as
//! such — it is never silently skipped, and no invalid path is ever
//! constructed. When no name matches the prefix the selector says so
//! explicitly with an empty result. Ties between equal timestamps keep the
//! candidate encountered last.

use vstd::prelude::*;
use crate::timestamp::Timestamp;
use crate::timestamp::chrono_parse;
use crate::timestamp::lemma_le_total;
use crate::timestamp::lemma_le_trans;
use crate::timestamp::parse_timestamp;

verus! {

/// Character index where the timestamp window of a filename starts.
pub const WINDOW_START: usize = 10;

/// Character index just past the timestamp window of a filename.
pub const WINDOW_END: usize = 29;

/// The filename starts with the prefix.
pub open spec fn is_candidate(name: Seq<char>, prefix: Seq<char>) -> bool {
    prefix.len() <= name.len() && name.subrange(0, prefix.len() as int) == prefix
}

/// The filename is long enough to hold the timestamp window.
pub open spec fn long_enough(name: Seq<char>) -> bool {
    name.len() >= WINDOW_END
}

/// The timestamp window of a filename.
pub open spec fn ts_window(name: Seq<char>) -> Seq<char> {
    name.subrange(WINDOW_START as int, WINDOW_END as int)
}

/// The filename holds the window and the window parses as a timestamp.
pub open spec fn well_formed(name: Seq<char>) -> bool {
    long_enough(name) && chrono_parse(ts_window(name)) is Some
}

/// The timestamp parsed out of a well-formed filename.
pub open spec fn parsed_ts(name: Seq<char>) -> Timestamp {
    chrono_parse(ts_window(name))->Some_0
}

/// The views of a vector of owned filenames.
pub open spec fn names_of(files: Seq<String>) -> Seq<Seq<char>> {
    files.map_values(|f: String| f@)
}

/// A matching filename that the selector must reject, and why.
#[derive(Debug, Clone, PartialEq, Eq)]
pub enum SelectError {
    /// The name matches the prefix but is too short to hold the window.
    NameTooShort(String),
    /// The window of the name does not parse as a timestamp.
    BadTimestamp(String),
}

/// No filename before index `i` is a malformed candidate.
pub open spec fn none_malformed_before(names: Seq<Seq<char>>, prefix: Seq<char>, i: int) -> bool {
    forall|j: int| 0 <= j < i && is_candidate(#[trigger] names[j], prefix) ==> well_formed(names[j])
}

/// The candidate at index `i` carries the newest timestamp; of equal
/// timestamps it is the last.
pub open spec fn selected_at(names: Seq<Seq<char>>, prefix: Seq<char>, i: int) -> bool {
    &&& 0 <= i < names.len()
    &&& is_candidate(names[i], prefix)
    &&& well_formed(names[i])
    &&& forall|j: int|
        0 <= j < names.len() && is_candidate(#[trigger] names[j], prefix) ==> parsed_ts(
            names[j],
        ).le_spec(parsed_ts(names[i]))
    &&& forall|j: int|
        i < j < names.len() && is_candidate(#[trigger] names[j], prefix) ==> parsed_ts(
            names[j],
        ).lt_spec(parsed_ts(names[i]))
}

fn starts_with_prefix(name: &str, prefix: &str) -> (r: bool)
    ensures
        r == is_candidate(name@, prefix@),
{
    let n = name.unicode_len();
    let p = prefix.unicode_len();
    if p > n {
        return false;
    }
    let mut i: usize = 0;
    while i < p
        invariant
            i <= p,
            p <= n,
            p == prefix@.len(),
            n == name@.len(),
            forall|j: int| 0 <= j < i ==> name@[j] == prefix@[j],
        decreases p - i,
    {
        if name.get_char(i) != prefix.get_char(i) {
            proof {
                assert(is_candidate(name@, prefix@) ==> name@.subrange(0, p as int)[i as int]
                    == prefix@[i as int]);
            }
            return false;
        }
        i += 1;
    }
    proof {
        assert(name@.subrange(0, p as int) =~= prefix@);
    }
    true
}

/// Of the filenames in `files`, return the one starting with `prefix` whose
/// embedded timestamp is newest; `Ok(None)` exactly when no filename starts
/// with the prefix; an error naming the first offending file when a matching
/// filename cannot hold a timestamp.
pub fn select_latest(files: &Vec<String>, prefix: &str) -> (r: Result<Option<String>, SelectError>)
    ensures
        (forall|j: int|
            0 <= j < names_of(files@).len() ==> !is_candidate(
                #[trigger] names_of(files@)[j],
                prefix@,
            )) ==> (r matches Ok(None)),
        ({
            let names = names_of(files@);
            match r {
                Ok(None) => forall|j: int|
                    0 <= j < names.len() ==> !is_candidate(#[trigger] names[j], prefix@),
                Ok(Some(f)) => {
                    &&& none_malformed_before(names, prefix@, names.len() as int)
                    &&& exists|i: int| f@ == names[i] && selected_at(names, prefix@, i)
                },
                Err(SelectError::NameTooShort(n)) => exists|i: int|
                    {
                        &&& 0 <= i < names.len()
                        &&& n@ == names[i]
                        &&& is_candidate(#[trigger] names[i], prefix@)
                        &&& !long_enough(names[i])
                        &&& none_malformed_before(names, prefix@, i)
                    },
                Err(SelectError::BadTimestamp(n)) => exists|i: int|
                    {
                        &&& 0 <= i < names.len()
                        &&& n@ == names[i]
                        &&& is_candidate(#[trigger] names[i], prefix@)
                        &&& long_enough(names[i])
                        &&& chrono_parse(ts_window(names[i])) is None
                        &&& none_malformed_before(names, prefix@, i)
                    },
            }
        }),
{
    let ghost names = names_of(files@);
    let mut best: Option<Timestamp> = None;
    let mut best_idx: usize = 0;
    let mut i: usize = 0;
    while i < files.len()
        invariant
            i <= files@.len(),
            names == names_of(files@),
            names.len() == files@.len(),
            best is None ==> forall|j: int|
                0 <= j < i ==> !is_candidate(#[trigger] names[j], prefix@),
            best matches Some(b) ==> {
                &&& best_idx < i
                &&& is_candidate(names[best_idx as int], prefix@)
                &&& well_formed(names[best_idx as int])
                &&& b == parsed_ts(names[best_idx as int])
                &&& none_malformed_before(names, prefix@, i as int)
                &&& forall|j: int|
                    0 <= j < i && is_candidate(#[trigger] names[j], prefix@) ==> parsed_ts(
                        names[j],
                    ).le_spec(b)
                &&& forall|j: int|
                    best_idx < j < i && is_candidate(#[trigger] names[j], prefix@) ==> parsed_ts(
                        names[j],
                    ).lt_spec(b)
            },
        decreases files@.len() - i,
    {
        let name = &files[i];
        assert(name@ == names[i as int]);
        if starts_with_prefix(name.as_str(), prefix) {
            let n = name.as_str().unicode_len();
            if n < WINDOW_END {
                return Err(SelectError::NameTooShort(name.clone()));
            }
            let window = name.as_str().substring_char(WINDOW_START, WINDOW_END);
            assert(window@ == ts_window(names[i as int]));
            match parse_timestamp(window) {
                None => {
                    return Err(SelectError::BadTimestamp(name.clone()));
                },
                Some(t) => {
                    assert(t == parsed_ts(names[i as int]));
                    match best {
                        None => {
                            best = Some(t);
                            best_idx = i;
                        },
                        Some(b) => {
                            if b.le(t) {
                                proof {
                                    assert forall|j: int|
                                        0 <= j < i + 1 && is_candidate(
                                            #[trigger] names[j],
                                            prefix@,
                                        ) implies parsed_ts(names[j]).le_spec(t) by {
                                        if j < i {
                                            lemma_le_trans(parsed_ts(names[j]), b, t);
                                        }
                                    }
                                }
                                best = Some(t);
                                best_idx = i;
                            } else {
                                proof {
                                    lemma_le_total(b, t);
                                }
                            }
                        },
                    }
                },
            }
        }
        i += 1;
    }
    match best {
        None => Ok(None),
        Some(_) => {
            let f = files[best_idx].clone();
            assert(f@ == names[best_idx as int]);
            Ok(Some(f))
        },
    }
}

} // verus!
