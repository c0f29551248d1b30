//! The six topological tile shapes and the lookup from asset names.

use vstd::prelude::*;
use vstd::string::StrSliceExecFns;

verus! {

/// Topological class of a cell's connection pattern: 0 connections, 1,
/// 2 opposite, 2 adjacent, 3, and 4 or more, respectively.
#[derive(Debug, Clone, Copy, PartialEq, Eq, Hash, Structural)]
pub enum TileKind {
    Solo,
    End,
    Straight,
    Corner,
    Tee,
    Cross,
}

/// The tile kind an asset name denotes, if any.
pub open spec fn kind_of_name(s: Seq<char>) -> Option<TileKind> {
    if s == "solo"@ {
        Some(TileKind::Solo)
    } else if s == "end"@ {
        Some(TileKind::End)
    } else if s == "straight"@ {
        Some(TileKind::Straight)
    } else if s == "corner"@ {
        Some(TileKind::Corner)
    } else if s == "tee"@ {
        Some(TileKind::Tee)
    } else if s == "cross"@ {
        Some(TileKind::Cross)
    } else {
        None
    }
}

/// A fixed slot per kind, for dense tables indexed by tile kind.
pub open spec fn kind_index_spec(kind: TileKind) -> int {
    match kind {
        TileKind::Solo => 0,
        TileKind::End => 1,
        TileKind::Straight => 2,
        TileKind::Corner => 3,
        TileKind::Tee => 4,
        TileKind::Cross => 5,
    }
}

pub fn kind_index(kind: TileKind) -> (i: usize)
    ensures
        i as int == kind_index_spec(kind),
        i < 6,
{
    match kind {
        TileKind::Solo => 0,
        TileKind::End => 1,
        TileKind::Straight => 2,
        TileKind::Corner => 3,
        TileKind::Tee => 4,
        TileKind::Cross => 5,
    }
}

impl TileKind {
    /// Exact match on the six known names; every other name is unrecognized.
    pub fn from_name(name: &str) -> (r: Option<TileKind>)
        ensures
            r == kind_of_name(name@),
    {
        if str_eq(name, "solo") {
            Some(TileKind::Solo)
        } else if str_eq(name, "end") {
            Some(TileKind::End)
        } else if str_eq(name, "straight") {
            Some(TileKind::Straight)
        } else if str_eq(name, "corner") {
            Some(TileKind::Corner)
        } else if str_eq(name, "tee") {
            Some(TileKind::Tee)
        } else if str_eq(name, "cross") {
            Some(TileKind::Cross)
        } else {
            None
        }
    }
}

/// Character-by-character string comparison.
fn str_eq(a: &str, b: &str) -> (r: bool)
    ensures
        r == (a@ == b@),
{
    let n = a.unicode_len();
    if n != b.unicode_len() {
        return false;
    }
    let mut i: usize = 0;
    while i < n
        invariant
            i <= n,
            n == a@.len(),
            n == b@.len(),
            forall|k: int| 0 <= k < i as int ==> a@[k] == b@[k],
        decreases n - i,
    {
        if a.get_char(i) != b.get_char(i) {
            return false;
        }
        i = i + 1;
    }
    proof {
        assert(a@ =~= b@);
    }
    true
}

} // verus!
