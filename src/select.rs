//! Matching the configured channel names against a server's live channels.

use vstd::prelude::*;

verus! {

/// What the report needs to know of one live channel.
pub struct ChannelInfo {
    pub id: u64,
    pub name: String,
    /// The channel holds text messages.
    pub text: bool,
}

/// The live channels to report on, and what to tell the operator about.
pub struct Selection {
    /// Indices of live text channels whose name is tracked, ascending.
    pub process: Vec<usize>,
    /// Indices of live channels whose name is tracked but that hold no text.
    pub not_text: Vec<usize>,
    /// Indices of tracked names that no live channel has.
    pub missing: Vec<usize>,
}

/// Some entry of `names` equals `name`.
pub open spec fn named_in(names: Seq<String>, name: Seq<char>) -> bool {
    exists|j: int| 0 <= j < names.len() && #[trigger] names[j]@ == name
}

/// Some live channel is named `name`.
pub open spec fn live_has(live: Seq<ChannelInfo>, name: Seq<char>) -> bool {
    exists|j: int| 0 <= j < live.len() && #[trigger] live[j].name@ == name
}

pub open spec fn ascending(s: Seq<usize>) -> bool {
    forall|a: int, b: int| 0 <= a < b < s.len() ==> s[a] < s[b]
}

/// `s` lists, in ascending order, exactly the indices below `n` where `p` holds.
pub open spec fn lists(s: Seq<usize>, n: int, p: spec_fn(int) -> bool) -> bool {
    &&& ascending(s)
    &&& forall|i: int| 0 <= i < s.len() ==> s[i] < n && p(s[i] as int)
    &&& forall|i: int| 0 <= i < n && #[trigger] p(i) ==> s.contains(i as usize)
}

fn contains_name(names: &Vec<String>, name: &String) -> (r: bool)
    ensures
        r == named_in(names@, name@),
{
    let mut j: usize = 0;
    while j < names.len()
        invariant
            j <= names@.len(),
            forall|k: int| 0 <= k < j ==> names@[k]@ != name@,
        decreases names@.len() - j,
    {
        if names[j] == *name {
            return true;
        }
        j = j + 1;
    }
    false
}

/// Index of the first live channel named `name`.
pub fn find_channel(live: &Vec<ChannelInfo>, name: &String) -> (r: Option<usize>)
    ensures
        r matches Some(i) ==> i < live@.len() && live@[i as int].name@ == name@ && forall|k: int|
            0 <= k < i ==> live@[k].name@ != name@,
        r is None ==> !live_has(live@, name@),
{
    let mut j: usize = 0;
    while j < live.len()
        invariant
            j <= live@.len(),
            forall|k: int| 0 <= k < j ==> live@[k].name@ != name@,
        decreases live@.len() - j,
    {
        if live[j].name == *name {
            return Some(j);
        }
        j = j + 1;
    }
    None
}

/// Sorts the live channels and the tracked names into those to report on,
/// those tracked but not holding text, and tracked names with no channel.
pub fn select_channels(to_track: &Vec<String>, live: &Vec<ChannelInfo>) -> (r: Selection)
    ensures
        lists(
            r.process@,
            live@.len() as int,
            |i: int| named_in(to_track@, live@[i].name@) && live@[i].text,
        ),
        lists(
            r.not_text@,
            live@.len() as int,
            |i: int| named_in(to_track@, live@[i].name@) && !live@[i].text,
        ),
        lists(r.missing@, to_track@.len() as int, |i: int| !live_has(live@, to_track@[i]@)),
{
    let ghost pt = |k: int| named_in(to_track@, live@[k].name@) && live@[k].text;
    let ghost pn = |k: int| named_in(to_track@, live@[k].name@) && !live@[k].text;
    let ghost pm = |k: int| !live_has(live@, to_track@[k]@);
    let mut process: Vec<usize> = Vec::new();
    let mut not_text: Vec<usize> = Vec::new();
    let mut i: usize = 0;
    while i < live.len()
        invariant
            i <= live@.len(),
            pt == (|k: int| named_in(to_track@, live@[k].name@) && live@[k].text),
            pn == (|k: int| named_in(to_track@, live@[k].name@) && !live@[k].text),
            lists(process@, i as int, pt),
            lists(not_text@, i as int, pn),
        decreases live@.len() - i,
    {
        let hit = contains_name(to_track, &live[i].name);
        proof {
            lemma_lists_step(process@, i, pt);
            lemma_lists_step(not_text@, i, pn);
        }
        if hit {
            if live[i].text {
                process.push(i);
            } else {
                not_text.push(i);
            }
        }
        i = i + 1;
    }
    let mut missing: Vec<usize> = Vec::new();
    let mut j: usize = 0;
    while j < to_track.len()
        invariant
            j <= to_track@.len(),
            pm == (|k: int| !live_has(live@, to_track@[k]@)),
            lists(missing@, j as int, pm),
        decreases to_track@.len() - j,
    {
        let found = find_channel(live, &to_track[j]);
        proof {
            lemma_lists_step(missing@, j, pm);
        }
        if found.is_none() {
            missing.push(j);
        }
        j = j + 1;
    }
    Selection { process, not_text, missing }
}

proof fn lemma_lists_step(s: Seq<usize>, n: usize, p: spec_fn(int) -> bool)
    requires
        lists(s, n as int, p),
    ensures
        p(n as int) ==> lists(s.push(n), n + 1, p),
        !p(n as int) ==> lists(s, n + 1, p),
{
    if p(n as int) {
        let t = s.push(n);
        assert(t[t.len() - 1] == n);
        assert forall|i: int| 0 <= i < n + 1 && #[trigger] p(i) implies t.contains(i as usize) by {
            if i < n {
                let m = choose|m: int| 0 <= m < s.len() && s[m] == i as usize;
                assert(t[m] == s[m]);
            }
        }
        assert forall|i: int| 0 <= i < t.len() implies t[i] < n + 1 && p(t[i] as int) by {
            if i < s.len() {
                assert(t[i] == s[i]);
            }
        }
    }
}

} // verus!
