//! The waypoint record: one search-path entry, and the splitting of a path
//! string into waypoints.

use vstd::prelude::*;
use crate::sep_char;
use crate::text::{clone_strings, strings_eq, push_char, str_chars};

verus! {

/// Mathematical view of one waypoint.
#[verifier::ext_equal]
pub ghost struct WaypointView {
    pub location: Seq<char>,
    pub tags: Seq<Seq<char>>,
    pub priority: u32,
    pub active: bool,
}

/// One search-path entry: where it points, how it is tagged, its precedence
/// and whether it contributes to the exported path string.
#[derive(Debug)]
pub struct Waypoint {
    pub location: String,
    pub tags: Vec<String>,
    pub priority: u32,
    pub active: bool,
}

impl View for Waypoint {
    type V = WaypointView;

    open spec fn view(&self) -> WaypointView {
        WaypointView {
            location: self.location@,
            tags: self.tags.deep_view(),
            priority: self.priority,
            active: self.active,
        }
    }
}

/// The tag given to waypoints seeded from the live environment path.
pub open spec fn system_tag() -> Seq<char> {
    seq!['s', 'y', 's', 't', 'e', 'm']
}

/// The waypoint that a bare location seeds: active, priority 0, tagged "system".
pub open spec fn wp_of_loc(l: Seq<char>) -> WaypointView {
    WaypointView { location: l, tags: seq![system_tag()], priority: 0, active: true }
}

/// The views of a sequence of waypoints.
pub open spec fn views_of(ws: Seq<Waypoint>) -> Seq<WaypointView> {
    ws.map_values(|w: Waypoint| w@)
}

impl Waypoint {
    /// Builds the default waypoint for a location: tagged "system",
    /// priority 0, active.
    pub fn from_location(location: String) -> (w: Waypoint)
        ensures
            w@ == wp_of_loc(location@),
    {
        proof {
            reveal_strlit("system");
        }
        let tags: Vec<String> = vec!["system".to_owned()];
        let w = Waypoint { location, tags, priority: 0, active: true };
        proof {
            assert("system"@ =~= system_tag());
            assert(w.tags.deep_view()[0] == w.tags@[0]@);
            assert(w.tags.deep_view() =~~= seq![system_tag()]);
            assert(w@ =~~= wp_of_loc(w.location@));
        }
        w
    }
}

impl Clone for Waypoint {
    /// A clone keeps all four fields.
    fn clone(&self) -> (r: Self)
        ensures
            r@ == self@,
    {
        let r = Waypoint {
            location: self.location.clone(),
            tags: clone_strings(&self.tags),
            priority: self.priority,
            active: self.active,
        };
        proof {
            assert(r@ =~= self@);
        }
        r
    }
}

impl PartialEq for Waypoint {
    /// Two waypoints are equal exactly when all four fields are equal.
    fn eq(&self, other: &Self) -> (r: bool) {
        let r = self.location == other.location && strings_eq(&self.tags, &other.tags)
            && self.priority == other.priority && self.active == other.active;
        proof {
            if r {
                assert(self@ =~= other@);
            }
        }
        r
    }
}

impl vstd::std_specs::cmp::PartialEqSpecImpl for Waypoint {
    open spec fn obeys_eq_spec() -> bool {
        true
    }

    open spec fn eq_spec(&self, other: &Waypoint) -> bool {
        self@ == other@
    }
}

/// Splits a character sequence at every occurrence of a separator, keeping
/// empty segments; the result always holds at least one segment.
pub open spec fn split_on(s: Seq<char>, sep: char) -> Seq<Seq<char>>
    decreases s.len(),
{
    if s.len() == 0 {
        seq![Seq::<char>::empty()]
    } else if s[0] == sep {
        seq![Seq::<char>::empty()] + split_on(s.skip(1), sep)
    } else {
        let rest = split_on(s.skip(1), sep);
        seq![seq![s[0]] + rest[0]] + rest.skip(1)
    }
}

/// Splits a path string at every path separator.
pub open spec fn split_locs(s: Seq<char>) -> Seq<Seq<char>> {
    split_on(s, sep_char())
}

/// Joins segments with a separator between each neighbouring pair.
pub open spec fn join_on(parts: Seq<Seq<char>>, sep: char) -> Seq<char>
    decreases parts.len(),
{
    if parts.len() == 0 {
        Seq::<char>::empty()
    } else if parts.len() == 1 {
        parts[0]
    } else {
        parts[0] + seq![sep] + join_on(parts.skip(1), sep)
    }
}

/// Joins segments with the path separator.
pub open spec fn join_locs(parts: Seq<Seq<char>>) -> Seq<char> {
    join_on(parts, sep_char())
}

pub proof fn lemma_split_len(s: Seq<char>, sep: char)
    ensures
        split_on(s, sep).len() >= 1,
    decreases s.len(),
{
    if s.len() != 0 {
        lemma_split_len(s.skip(1), sep);
    }
}

/// Joining the segments of a split gives back the string that was split.
pub proof fn lemma_join_split(s: Seq<char>, sep: char)
    ensures
        join_on(split_on(s, sep), sep) == s,
    decreases s.len(),
{
    if s.len() == 0 {
        assert(join_on(split_on(s, sep), sep) =~= s);
    } else if s[0] == sep {
        lemma_join_split(s.skip(1), sep);
        lemma_split_len(s.skip(1), sep);
        let rest = split_on(s.skip(1), sep);
        assert(split_on(s, sep) == seq![Seq::<char>::empty()] + rest);
        assert((seq![Seq::<char>::empty()] + rest).skip(1) =~= rest);
        assert(join_on(split_on(s, sep), sep) =~= s);
    } else {
        lemma_join_split(s.skip(1), sep);
        lemma_split_len(s.skip(1), sep);
        let rest = split_on(s.skip(1), sep);
        let first = seq![s[0]] + rest[0];
        assert(split_on(s, sep) == seq![first] + rest.skip(1));
        if rest.len() == 1 {
            assert(join_on(split_on(s, sep), sep) == first);
            assert(join_on(rest, sep) == rest[0]);
            assert(first =~= s);
        } else {
            assert((seq![first] + rest.skip(1)).skip(1) =~= rest.skip(1));
            assert(join_on(split_on(s, sep), sep) == first + seq![sep] + join_on(
                rest.skip(1),
                sep,
            ));
            assert(join_on(rest, sep) == rest[0] + seq![sep] + join_on(rest.skip(1), sep));
            assert(first + seq![sep] + join_on(rest.skip(1), sep) =~= seq![s[0]] + (rest[0]
                + seq![sep] + join_on(rest.skip(1), sep)));
            assert(seq![s[0]] + s.skip(1) =~= s);
        }
    }
}

/// The segments with a partly built first segment put back in front.
pub open spec fn first_extended(pre: Seq<char>, parts: Seq<Seq<char>>) -> Seq<Seq<char>>
    recommends
        parts.len() >= 1,
{
    seq![pre + parts[0]] + parts.skip(1)
}

/// Splits a string at every occurrence of a separator, keeping empty
/// segments.
pub fn split_on_char(s: &str, sep: char) -> (r: Vec<String>)
    ensures
        r.deep_view() == split_on(s@, sep),
{
    let chars = str_chars(s);
    let ghost full = s@;
    let mut out: Vec<String> = Vec::new();
    let mut cur: String = String::new();
    let mut i: usize = 0;
    proof {
        lemma_split_len(full, sep);
        assert(full.skip(0) =~= full);
        let parts = split_on(full, sep);
        assert(Seq::<char>::empty() + parts[0] =~= parts[0]);
        assert(first_extended(Seq::<char>::empty(), parts) =~~= parts);
        assert(out.deep_view() + first_extended(cur@, parts) =~~= parts);
    }
    while i < chars.len()
        invariant
            chars@ == full,
            i <= full.len(),
            split_on(full, sep) == out.deep_view() + first_extended(cur@, split_on(full.skip(i as int), sep)),
        decreases full.len() - i,
    {
        let ghost rest = split_on(full.skip(i as int), sep);
        proof {
            lemma_split_len(full.skip(i as int), sep);
            assert(full.skip(i as int)[0] == full[i as int]);
            assert(full.skip(i as int).skip(1) =~= full.skip(i + 1));
        }
        let c = chars[i];
        let ghost out0 = out.deep_view();
        let ghost cur0 = cur@;
        let ghost rest1 = split_on(full.skip(i + 1), sep);
        if c == sep {
            proof {
                lemma_split_len(full.skip(i + 1), sep);
                assert(rest == seq![Seq::<char>::empty()] + rest1);
                assert(rest[0] == Seq::<char>::empty());
                assert(rest.skip(1) =~= rest1);
                assert(cur0 + Seq::<char>::empty() =~= cur0);
                assert(first_extended(cur0, rest) =~~= seq![cur0] + rest1);
            }
            out.push(cur);
            cur = String::new();
            proof {
                assert(out.deep_view() =~~= out0 + seq![cur0]);
                assert(Seq::<char>::empty() + rest1[0] =~= rest1[0]);
                assert(first_extended(cur@, rest1) =~~= rest1);
                assert(out.deep_view() + first_extended(cur@, rest1) =~~= out0 + (seq![cur0]
                    + rest1));
                assert(out0 + (seq![cur0] + rest1) =~~= out0 + first_extended(cur0, rest));
            }
        } else {
            proof {
                lemma_split_len(full.skip(i + 1), sep);
                assert(rest == seq![seq![full[i as int]] + rest1[0]] + rest1.skip(1));
                assert(rest[0] == seq![full[i as int]] + rest1[0]);
                assert(rest.skip(1) =~= rest1.skip(1));
                assert(cur0 + (seq![full[i as int]] + rest1[0]) =~= cur0.push(full[i as int])
                    + rest1[0]);
                assert(first_extended(cur0, rest) =~~= first_extended(
                    cur0.push(full[i as int]),
                    rest1,
                ));
            }
            push_char(&mut cur, c);
            proof {
                assert(cur@ == cur0.push(full[i as int]));
                assert(out.deep_view() + first_extended(cur@, rest1) =~~= out0 + first_extended(
                    cur0,
                    rest,
                ));
            }
        }
        i += 1;
    }
    let ghost out0 = out.deep_view();
    let ghost cur0 = cur@;
    proof {
        assert(full.skip(full.len() as int) =~= Seq::<char>::empty());
        let rest = split_on(full.skip(full.len() as int), sep);
        assert(rest == seq![Seq::<char>::empty()]);
        assert(cur0 + Seq::<char>::empty() =~= cur0);
        assert(first_extended(cur0, rest) =~~= seq![cur0]);
    }
    out.push(cur);
    proof {
        assert(out.deep_view() =~~= out0 + seq![cur0]);
        assert(out.deep_view() =~~= split_on(full, sep));
    }
    out
}

/// Splits a path string at every path separator, keeping empty segments.
pub fn split_path(s: &str) -> (r: Vec<String>)
    ensures
        r.deep_view() == split_locs(s@),
{
    split_on_char(s, ':')
}

/// The waypoints that a path string seeds: one per segment, in order.
pub open spec fn waypoints_of_path(s: Seq<char>) -> Seq<WaypointView> {
    split_locs(s).map_values(|l: Seq<char>| wp_of_loc(l))
}

/// Splits a path string on the separator and seeds one default waypoint per
/// segment, in order; empty segments are kept as returned by the naive split.
pub fn path2waypoints(path: String) -> (r: Vec<Waypoint>)
    ensures
        views_of(r@) == waypoints_of_path(path@),
{
    let segs = split_path(path.as_str());
    let mut r: Vec<Waypoint> = Vec::new();
    let mut i: usize = 0;
    while i < segs.len()
        invariant
            i <= segs@.len(),
            segs.deep_view() == split_locs(path@),
            views_of(r@) == waypoints_of_path(path@).take(i as int),
        decreases segs@.len() - i,
    {
        let w = Waypoint::from_location(segs[i].clone());
        proof {
            assert(segs.deep_view()[i as int] == segs@[i as int]@);
            assert(w@ == wp_of_loc(split_locs(path@)[i as int]));
            assert(waypoints_of_path(path@)[i as int] == wp_of_loc(split_locs(path@)[i as int]));
        }
        let ghost r0 = views_of(r@);
        r.push(w);
        i += 1;
        proof {
            assert(views_of(r@) =~= r0.push(w@));
            assert(views_of(r@) =~= waypoints_of_path(path@).take(i as int));
        }
    }
    proof {
        assert(waypoints_of_path(path@).take(segs@.len() as int) =~= waypoints_of_path(path@));
        assert(split_locs(path@).len() == segs@.len());
    }
    r
}

} // verus!
