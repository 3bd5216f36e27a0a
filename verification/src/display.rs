//! Choice of the screen for the second window, by a textual criterion.
use vstd::prelude::*;

use crate::corrections::{first_match, lemma_first_match_at, lemma_first_match_none};

verus! {

/// What the choice of a screen reads of it: the position of its top-left
/// corner and whether it is the machine's built-in screen (on systems that
/// do not tell, the screen at the origin counts as built-in).
#[derive(Clone, Copy, Debug)]
pub struct MonitorPlace {
    pub position: (i32, i32),
    pub is_builtin: bool,
}

/// Which screens a criterion accepts: `origin`, at `(0, 0)`; `other`,
/// elsewhere; `builtin`, the built-in one; `external`, any other. `None`
/// for an unknown criterion.
pub open spec fn criterion_test(criteria: Seq<char>) -> Option<spec_fn(MonitorPlace) -> bool> {
    if criteria == "origin"@ {
        Some(|m: MonitorPlace| m.position == (0i32, 0i32))
    } else if criteria == "other"@ {
        Some(|m: MonitorPlace| m.position != (0i32, 0i32))
    } else if criteria == "builtin"@ {
        Some(|m: MonitorPlace| m.is_builtin)
    } else if criteria == "external"@ {
        Some(|m: MonitorPlace| !m.is_builtin)
    } else {
        None
    }
}

/// Whether screen `m` meets the criterion numbered `c` (`0` origin, `1`
/// other, `2` built-in, `3` external).
fn meets(m: MonitorPlace, c: u8) -> (r: bool)
    requires
        c < 4,
    ensures
        r == if c == 0 {
            m.position == (0i32, 0i32)
        } else if c == 1 {
            m.position != (0i32, 0i32)
        } else if c == 2 {
            m.is_builtin
        } else {
            !m.is_builtin
        },
{
    if c == 0 {
        m.position.0 == 0 && m.position.1 == 0
    } else if c == 1 {
        !(m.position.0 == 0 && m.position.1 == 0)
    } else if c == 2 {
        m.is_builtin
    } else {
        !m.is_builtin
    }
}

fn text_is(a: &str, b: &str) -> (r: bool)
    ensures
        r == (a@ == b@),
{
    let x = a.to_owned();
    let y = b.to_owned();
    x == y
}

/// Position of the first screen that meets `criteria`; `None` when none
/// does or the criterion is unknown.
pub fn find_monitor_by_criteria(monitors: &Vec<MonitorPlace>, criteria: &str) -> (r: Option<usize>)
    ensures
        r == match criterion_test(criteria@) {
            Some(p) => match first_match(monitors@, p) {
                Some(i) => Some(i as usize),
                None => None::<usize>,
            },
            None => None::<usize>,
        },
{
    let c: u8 = if text_is(criteria, "origin") {
        0
    } else if text_is(criteria, "other") {
        1
    } else if text_is(criteria, "builtin") {
        2
    } else if text_is(criteria, "external") {
        3
    } else {
        return None;
    };
    let ghost p = criterion_test(criteria@)->0;
    let mut i: usize = 0;
    while i < monitors.len()
        invariant
            0 <= i <= monitors@.len(),
            c < 4,
            criterion_test(criteria@) == Some(p),
            c == 0 ==> criteria@ == "origin"@,
            c == 1 ==> criteria@ == "other"@,
            c == 2 ==> criteria@ == "builtin"@,
            c == 3 ==> criteria@ == "external"@,
            forall|j: int| 0 <= j < i ==> !p(#[trigger] monitors@[j]),
        decreases monitors.len() - i,
    {
        let m = monitors[i];
        let hit = meets(m, c);
        assert(hit == p(m)) by {
            reveal_strlit("origin");
            reveal_strlit("other");
            reveal_strlit("builtin");
            reveal_strlit("external");
        }
        if hit {
            proof {
                lemma_first_match_at(monitors@, p, i as int);
            }
            return Some(i);
        }
        i = i + 1;
    }
    proof {
        lemma_first_match_none(monitors@, p);
    }
    None
}

} // verus!
