//! The depth state machine of the router: two counters that track how far the
//! chain of currently open elements follows the target path.

use vstd::prelude::*;

verus! {

/// The target path of the GPX pass: `gpx` / `trk` / `trkseg` / `trkpt`.
pub open spec fn spec_gpx_path() -> Seq<Seq<char>> {
    seq!["gpx"@, "trk"@, "trkseg"@, "trkpt"@]
}

/// Builds the target path of the GPX pass.
pub fn gpx_path() -> (r: Vec<String>)
    ensures
        r@.map_values(|s: String| s@) == spec_gpx_path(),
{
    let mut v: Vec<String> = Vec::new();
    v.push("gpx".to_owned());
    v.push("trk".to_owned());
    v.push("trkseg".to_owned());
    v.push("trkpt".to_owned());
    proof {
        assert(v@.map_values(|s: String| s@) =~= spec_gpx_path());
    }
    v
}

/// How many consecutive segments of `path`, from the root on, the open-element
/// chain `stack` confirms: the length of the longest common prefix of the two.
pub open spec fn prefix_match(stack: Seq<Seq<char>>, path: Seq<Seq<char>>) -> nat
    decreases stack.len(),
{
    if stack.len() == 0 || path.len() == 0 {
        0
    } else if stack[0] == path[0] {
        1 + prefix_match(stack.drop_first(), path.drop_first())
    } else {
        0
    }
}

pub proof fn lemma_prefix_match_bounds(stack: Seq<Seq<char>>, path: Seq<Seq<char>>)
    ensures
        prefix_match(stack, path) <= stack.len(),
        prefix_match(stack, path) <= path.len(),
        forall|i: int| 0 <= i < prefix_match(stack, path) ==> stack[i] == path[i],
    decreases stack.len(),
{
    if stack.len() == 0 || path.len() == 0 {
    } else if stack[0] == path[0] {
        lemma_prefix_match_bounds(stack.drop_first(), path.drop_first());
        assert forall|i: int| 0 <= i < prefix_match(stack, path) implies stack[i] == path[i] by {
            if i > 0 {
                assert(stack.drop_first()[i - 1] == path.drop_first()[i - 1]);
            }
        }
    }
}

/// Opening one more element extends the confirmed prefix by one exactly when
/// the whole current chain is confirmed, the path is not yet exhausted, and
/// the new name is the next path segment.
pub proof fn lemma_prefix_match_push(stack: Seq<Seq<char>>, path: Seq<Seq<char>>, name: Seq<char>)
    ensures
        prefix_match(stack.push(name), path) == if prefix_match(stack, path) == stack.len()
            && stack.len() < path.len() && path[stack.len() as int] == name {
            prefix_match(stack, path) + 1
        } else {
            prefix_match(stack, path)
        },
    decreases stack.len(),
{
    lemma_prefix_match_bounds(stack, path);
    if stack.len() == 0 {
        if path.len() == 0 {
            assert(prefix_match(stack.push(name), path) == 0);
        } else {
            assert(stack.push(name) =~= seq![name]);
            assert(seq![name][0] == name);
            assert(seq![name].drop_first() =~= Seq::<Seq<char>>::empty());
            if path[0] == name {
                assert(prefix_match(seq![name].drop_first(), path.drop_first()) == 0);
                assert(prefix_match(seq![name], path) == 1);
            } else {
                assert(prefix_match(seq![name], path) == 0);
            }
        }
    } else if path.len() == 0 {
    } else if stack[0] == path[0] {
        lemma_prefix_match_push(stack.drop_first(), path.drop_first(), name);
        assert(stack.push(name).drop_first() =~= stack.drop_first().push(name));
        assert(stack.push(name)[0] == stack[0]);
    } else {
        assert(stack.push(name)[0] == stack[0]);
    }
}

/// Closing the innermost element shortens the confirmed prefix by one exactly
/// when the whole chain was confirmed; otherwise it leaves it unchanged.
pub proof fn lemma_prefix_match_pop(stack: Seq<Seq<char>>, path: Seq<Seq<char>>)
    requires
        stack.len() > 0,
    ensures
        prefix_match(stack.drop_last(), path) == if prefix_match(stack, path) == stack.len() {
            stack.len() - 1
        } else {
            prefix_match(stack, path) as int
        },
    decreases stack.len(),
{
    lemma_prefix_match_bounds(stack, path);
    lemma_prefix_match_bounds(stack.drop_last(), path);
    if path.len() == 0 {
        assert(prefix_match(stack, path) == 0);
        assert(prefix_match(stack.drop_last(), path) == 0);
    } else if stack.len() == 1 {
        assert(stack.drop_last() =~= Seq::<Seq<char>>::empty());
    } else if stack[0] == path[0] {
        lemma_prefix_match_pop(stack.drop_first(), path.drop_first());
        assert(stack.drop_last().drop_first() =~= stack.drop_first().drop_last());
        assert(stack.drop_last()[0] == stack[0]);
    } else {
        assert(stack.drop_last()[0] == stack[0]);
        assert(prefix_match(stack, path) == 0);
        assert(prefix_match(stack.drop_last(), path) == 0);
    }
}

/// A chain confirms the whole path and is no deeper than it exactly when it
/// is the path.
pub proof fn lemma_full_match(stack: Seq<Seq<char>>, path: Seq<Seq<char>>)
    ensures
        (prefix_match(stack, path) == path.len() && stack.len() == path.len()) <==> stack =~= path,
{
    lemma_prefix_match_bounds(stack, path);
    if stack =~= path {
        lemma_prefix_match_refl(path);
    }
}

proof fn lemma_prefix_match_refl(path: Seq<Seq<char>>)
    ensures
        prefix_match(path, path) == path.len(),
    decreases path.len(),
{
    if path.len() > 0 {
        lemma_prefix_match_refl(path.drop_first());
    }
}

/// The two counters of the router: how deep the cursor is, and how many
/// consecutive path segments from the root the open chain has confirmed.
pub struct PathTracker {
    pub matched: usize,
    pub current: usize,
}

impl PathTracker {
    /// The counters never run ahead of the nesting depth nor past the path.
    pub open spec fn wf(self, path_len: nat) -> bool {
        self.matched <= self.current && self.matched <= path_len
    }

    /// A tracker for a cursor standing before the root.
    pub fn new() -> (t: Self)
        ensures
            t.matched == 0 && t.current == 0,
    {
        PathTracker { matched: 0, current: 0 }
    }

    /// Steps the tracker over an element-open event and reports whether the
    /// opened element sits exactly at the end of the target path.
    pub fn on_open(&mut self, name: &String, path: &Vec<String>) -> (hit: bool)
        requires
            old(self).wf(path@.len()),
            old(self).current < usize::MAX,
        ensures
            final(self).current == old(self).current + 1,
            final(self).matched == if old(self).matched == old(self).current
                && old(self).matched < path@.len() && path@[old(self).matched as int]@ == name@ {
                old(self).matched + 1
            } else {
                old(self).matched as int
            },
            hit == (final(self).current == path@.len() && final(self).matched == path@.len()),
            final(self).wf(path@.len()),
    {
        if self.matched == self.current && self.matched < path.len() && path[self.matched] == *name
        {
            self.matched = self.matched + 1;
        }
        self.current = self.current + 1;
        self.current == path.len() && self.matched == path.len()
    }

    /// Reports whether a self-closing element read at the cursor sits
    /// exactly at the end of the target path. The counters do not move: the
    /// element opens and closes in the same event.
    pub fn at_target(&self, name: &String, path: &Vec<String>) -> (hit: bool)
        requires
            self.wf(path@.len()),
        ensures
            hit == (self.matched == self.current && self.matched + 1 == path@.len()
                && path@[self.matched as int]@ == name@),
    {
        self.matched == self.current && self.matched < path.len() && path.len() - self.matched
            == 1 && path[self.matched] == *name
    }

    /// Steps the tracker over an element-close event.
    pub fn on_close(&mut self, path: &Vec<String>)
        requires
            old(self).wf(path@.len()),
            old(self).current > 0,
        ensures
            final(self).current == old(self).current - 1,
            final(self).matched == if old(self).matched == old(self).current {
                old(self).matched - 1
            } else {
                old(self).matched as int
            },
            final(self).wf(path@.len()),
    {
        if self.matched == self.current {
            self.matched = self.matched - 1;
        }
        self.current = self.current - 1;
    }
}

} // verus!
