//! The persisted document: the waypoints, the derived exported path string,
//! and free-form metadata.

use vstd::prelude::*;
use vstd::string::StringExecFns;
use vstd::multiset::Multiset;
use crate::errors::WpError;
use crate::text::push_char;
use crate::waypoint::{
    Waypoint, WaypointView, views_of, join_on, join_locs, split_locs, waypoints_of_path,
    lemma_join_split, path2waypoints,
};
use crate::sep_char;

verus! {

broadcast use vstd::seq_lib::group_to_multiset_ensures;

/// Mathematical view of one metadata entry.
#[verifier::ext_equal]
pub ghost struct MetaPairView {
    pub key: Seq<char>,
    pub value: Seq<char>,
}

/// One free-form metadata entry of the persisted document. Entries are kept
/// in order of appearance, duplicate keys included: the open string-to-string
/// mapping is pinned as an ordered list, so any document round-trips even
/// where a map would silently drop an entry. No operation in this crate ever
/// adds one.
#[derive(Debug)]
pub struct MetaPair {
    pub key: String,
    pub value: String,
}

impl View for MetaPair {
    type V = MetaPairView;

    open spec fn view(&self) -> MetaPairView {
        MetaPairView { key: self.key@, value: self.value@ }
    }
}

impl Clone for MetaPair {
    /// A clone keeps both fields.
    fn clone(&self) -> (r: Self)
        ensures
            r@ == self@,
    {
        let r = MetaPair { key: self.key.clone(), value: self.value.clone() };
        proof {
            assert(r@ =~= self@);
        }
        r
    }
}

/// The views of a sequence of metadata entries.
pub open spec fn meta_views(ms: Seq<MetaPair>) -> Seq<MetaPairView> {
    ms.map_values(|m: MetaPair| m@)
}

/// Mathematical view of the persisted document.
#[verifier::ext_equal]
pub ghost struct ConfigView {
    pub path: Seq<char>,
    pub waypoints: Seq<WaypointView>,
    pub metadata: Seq<MetaPairView>,
}

/// The persisted document. `path` is derivative data: it is recomputed from
/// the active waypoints every time the document is saved.
#[derive(Debug)]
pub struct Config {
    pub path: String,
    pub waypoints: Vec<Waypoint>,
    pub metadata: Vec<MetaPair>,
}

impl View for Config {
    type V = ConfigView;

    open spec fn view(&self) -> ConfigView {
        ConfigView {
            path: self.path@,
            waypoints: views_of(self.waypoints@),
            metadata: meta_views(self.metadata@),
        }
    }
}

/// The locations of the active waypoints, in stored order.
pub open spec fn active_locs(ws: Seq<WaypointView>) -> Seq<Seq<char>>
    decreases ws.len(),
{
    if ws.len() == 0 {
        Seq::<Seq<char>>::empty()
    } else {
        let rest = active_locs(ws.drop_last());
        if ws.last().active {
            rest.push(ws.last().location)
        } else {
            rest
        }
    }
}

/// The exported path string: the active locations joined with the separator,
/// in stored order.
pub open spec fn rendered_path(ws: Seq<WaypointView>) -> Seq<char> {
    join_locs(active_locs(ws))
}

/// Joining behind one more segment appends a separator and the segment,
/// except onto no segments at all.
pub proof fn lemma_join_push(parts: Seq<Seq<char>>, l: Seq<char>, sep: char)
    ensures
        join_on(parts.push(l), sep) == if parts.len() == 0 {
            l
        } else {
            join_on(parts, sep) + seq![sep] + l
        },
    decreases parts.len(),
{
    if parts.len() == 0 {
        assert(parts.push(l)[0] == l);
    } else if parts.len() == 1 {
        assert(parts.push(l)[0] == parts[0]);
        assert(parts.push(l).skip(1) =~= seq![l]);
        assert(join_on(seq![l], sep) == l);
    } else {
        lemma_join_push(parts.skip(1), l, sep);
        assert(parts.push(l)[0] == parts[0]);
        assert(parts.push(l).skip(1) =~= parts.skip(1).push(l));
        assert(parts[0] + seq![sep] + (join_on(parts.skip(1), sep) + seq![sep] + l) =~= (parts[0]
            + seq![sep] + join_on(parts.skip(1), sep)) + seq![sep] + l);
    }
}

/// Renders the exported path string from the active waypoints.
pub fn render_path(ws: &Vec<Waypoint>) -> (r: String)
    ensures
        r@ == rendered_path(views_of(ws@)),
{
    let mut out = String::new();
    let mut any = false;
    let mut i: usize = 0;
    proof {
        assert(views_of(ws@).take(0) =~= Seq::<WaypointView>::empty());
    }
    while i < ws.len()
        invariant
            i <= ws@.len(),
            any == (active_locs(views_of(ws@).take(i as int)).len() > 0),
            out@ == rendered_path(views_of(ws@).take(i as int)),
        decreases ws@.len() - i,
    {
        let ghost vs = views_of(ws@);
        let ghost pre = active_locs(vs.take(i as int));
        proof {
            assert(vs.take(i + 1).drop_last() =~= vs.take(i as int));
            assert(vs.take(i + 1).last() == vs[i as int]);
            assert(vs[i as int] == ws@[i as int]@);
        }
        if ws[i].active {
            proof {
                lemma_join_push(pre, ws@[i as int]@.location, sep_char());
            }
            if any {
                push_char(&mut out, ':');
            }
            out.append(ws[i].location.as_str());
            proof {
                if pre.len() > 0 {
                    assert(out@ =~= join_on(pre, sep_char()) + seq![sep_char()]
                        + ws@[i as int]@.location);
                } else {
                    assert(out@ =~= ws@[i as int]@.location);
                }
                assert(active_locs(vs.take(i + 1)) == pre.push(ws@[i as int]@.location));
            }
            any = true;
        } else {
            proof {
                assert(active_locs(vs.take(i + 1)) == pre);
            }
        }
        i += 1;
    }
    proof {
        assert(views_of(ws@).take(ws@.len() as int) =~= views_of(ws@));
    }
    out
}

/// Waypoints seeded from a path string are all active, with the segment as
/// location.
pub proof fn lemma_seeded_active(p: Seq<char>)
    ensures
        active_locs(waypoints_of_path(p)) == split_locs(p),
    decreases split_locs(p).len(),
{
    lemma_active_all(waypoints_of_path(p));
    assert(waypoints_of_path(p).map_values(|w: WaypointView| w.location) =~~= split_locs(p));
}

/// Over all-active waypoints, the active locations are all the locations.
pub proof fn lemma_active_all(ws: Seq<WaypointView>)
    requires
        forall|j: int| 0 <= j < ws.len() ==> ws[j].active,
    ensures
        active_locs(ws) == ws.map_values(|w: WaypointView| w.location),
    decreases ws.len(),
{
    if ws.len() == 0 {
        assert(active_locs(ws) =~~= ws.map_values(|w: WaypointView| w.location));
    } else {
        lemma_active_all(ws.drop_last());
        assert(ws.map_values(|w: WaypointView| w.location) =~~= ws.drop_last().map_values(
            |w: WaypointView| w.location,
        ).push(ws.last().location));
    }
}

/// Export round trip: a path string seeded into waypoints renders back
/// unchanged, since every seeded waypoint is active.
pub proof fn lemma_seed_render_round_trip(p: Seq<char>)
    ensures
        rendered_path(waypoints_of_path(p)) == p,
{
    lemma_seeded_active(p);
    lemma_join_split(p, sep_char());
}

impl Config {
    /// Builds the document seeded from the live environment path: one
    /// default waypoint per segment, the path string as handed in, no
    /// metadata. Fails with `AlreadyExists` when the config file already
    /// exists and overwrite was not asked for.
    pub fn freeze(env_path: String, config_file_exists: bool, overwrite: bool) -> (r: Result<
        Config,
        WpError,
    >)
        ensures
            config_file_exists && !overwrite ==> r == Err::<Config, WpError>(
                WpError::AlreadyExists,
            ),
            !(config_file_exists && !overwrite) ==> match r {
                Ok(c) => c@.waypoints == waypoints_of_path(env_path@) && c@.path == env_path@
                    && c@.metadata == Seq::<MetaPairView>::empty(),
                Err(_) => false,
            },
    {
        if config_file_exists && !overwrite {
            return Err(WpError::AlreadyExists);
        }
        let path = env_path.clone();
        let waypoints = path2waypoints(env_path);
        let c = Config { path, waypoints, metadata: Vec::new() };
        proof {
            assert(meta_views(c.metadata@) =~~= Seq::<MetaPairView>::empty());
        }
        Ok(c)
    }
}

/// The records carrying one given priority, in stored order.
pub open spec fn with_priority(ws: Seq<WaypointView>, p: u32) -> Seq<WaypointView>
    decreases ws.len(),
{
    if ws.len() == 0 {
        Seq::<WaypointView>::empty()
    } else {
        let rest = with_priority(ws.drop_last(), p);
        if ws.last().priority == p {
            rest.push(ws.last())
        } else {
            rest
        }
    }
}

/// Restriction to one priority distributes over concatenation.
pub proof fn lemma_with_priority_concat(a: Seq<WaypointView>, b: Seq<WaypointView>, p: u32)
    ensures
        with_priority(a + b, p) == with_priority(a, p) + with_priority(b, p),
    decreases b.len(),
{
    if b.len() == 0 {
        assert(a + b =~= a);
        assert(with_priority(a, p) + with_priority(b, p) =~= with_priority(a, p));
    } else {
        lemma_with_priority_concat(a, b.drop_last(), p);
        assert((a + b).drop_last() =~= a + b.drop_last());
        assert((a + b).last() == b.last());
        if b.last().priority == p {
            assert(with_priority(a, p) + with_priority(b.drop_last(), p).push(b.last()) =~= (
            with_priority(a, p) + with_priority(b.drop_last(), p)).push(b.last()));
        }
    }
}

/// Where no record carries the priority, its restriction is empty.
pub proof fn lemma_with_priority_absent(ws: Seq<WaypointView>, p: u32)
    requires
        forall|j: int| 0 <= j < ws.len() ==> ws[j].priority != p,
    ensures
        with_priority(ws, p) == Seq::<WaypointView>::empty(),
    decreases ws.len(),
{
    if ws.len() > 0 {
        lemma_with_priority_absent(ws.drop_last(), p);
    }
}

/// Removing the first record of its priority takes the head off that
/// priority's restriction and leaves every other restriction unchanged.
pub proof fn lemma_with_priority_remove(ws: Seq<WaypointView>, i: int, p: u32)
    requires
        0 <= i < ws.len(),
        forall|j: int| 0 <= j < i ==> ws[j].priority != ws[i].priority,
    ensures
        p == ws[i].priority ==> with_priority(ws, p) == seq![ws[i]] + with_priority(
            ws.remove(i),
            p,
        ),
        p != ws[i].priority ==> with_priority(ws, p) == with_priority(ws.remove(i), p),
{
    let a = ws.subrange(0, i);
    let x = ws[i];
    let b = ws.subrange(i + 1, ws.len() as int);
    assert(ws =~= a + (seq![x] + b));
    assert(ws.remove(i) =~= a + b);
    lemma_with_priority_concat(a, seq![x] + b, p);
    lemma_with_priority_concat(seq![x], b, p);
    lemma_with_priority_concat(a, b, p);
    assert(seq![x].drop_last() =~= Seq::<WaypointView>::empty());
    assert(seq![x].last() == x);
    assert(with_priority(Seq::<WaypointView>::empty(), p) == Seq::<WaypointView>::empty());
    assert(with_priority(seq![x], p) == if x.priority == p {
        Seq::<WaypointView>::empty().push(x)
    } else {
        Seq::<WaypointView>::empty()
    });
    if p == x.priority {
        assert(forall|j: int| 0 <= j < a.len() ==> a[j] == ws[j]);
        lemma_with_priority_absent(a, p);
        assert(Seq::<WaypointView>::empty().push(x) =~= seq![x]);
        assert(with_priority(ws, p) =~= seq![x] + with_priority(ws.remove(i), p));
    } else {
        assert(with_priority(seq![x], p) =~= Seq::<WaypointView>::empty());
        assert(with_priority(ws, p) =~= with_priority(ws.remove(i), p));
    }
}

/// Appending one record extends exactly its own priority's restriction.
pub proof fn lemma_with_priority_push(ws: Seq<WaypointView>, x: WaypointView, p: u32)
    ensures
        p == x.priority ==> with_priority(ws.push(x), p) == with_priority(ws, p).push(x),
        p != x.priority ==> with_priority(ws.push(x), p) == with_priority(ws, p),
{
    assert(ws.push(x).drop_last() =~= ws);
    assert(ws.push(x).last() == x);
}

/// Whether a sequence of waypoint views is sorted by ascending priority.
pub open spec fn sorted_by_priority(ws: Seq<WaypointView>) -> bool {
    forall|i: int, j: int| 0 <= i < j < ws.len() ==> ws[i].priority <= ws[j].priority
}

/// The waypoints whose tags contain the given tag, in stored order.
pub open spec fn tag_filter(ws: Seq<WaypointView>, t: Seq<char>) -> Seq<WaypointView>
    decreases ws.len(),
{
    if ws.len() == 0 {
        Seq::<WaypointView>::empty()
    } else {
        let rest = tag_filter(ws.drop_last(), t);
        if ws.last().tags.contains(t) {
            rest.push(ws.last())
        } else {
            rest
        }
    }
}

/// The waypoints a listing selects: all of them, or those carrying the tag.
pub open spec fn listed(ws: Seq<WaypointView>, tag: Option<Seq<char>>) -> Seq<WaypointView> {
    match tag {
        Option::None => ws,
        Option::Some(t) => tag_filter(ws, t),
    }
}

/// Whether a tag vector holds the given tag.
fn tags_contain(tags: &Vec<String>, t: &String) -> (r: bool)
    ensures
        r == tags.deep_view().contains(t@),
{
    let mut i: usize = 0;
    while i < tags.len()
        invariant
            i <= tags@.len(),
            forall|j: int| 0 <= j < i ==> tags.deep_view()[j] != t@,
        decreases tags@.len() - i,
    {
        if tags[i] == *t {
            proof {
                assert(tags.deep_view()[i as int] == t@);
            }
            return true;
        }
        proof {
            assert(tags.deep_view()[i as int] == tags@[i as int]@);
        }
        i += 1;
    }
    proof {
        assert(forall|j: int| 0 <= j < tags.deep_view().len() ==> tags.deep_view()[j] != t@);
    }
    false
}

/// The waypoints whose tags contain the given tag (all of them when no tag
/// is given), sorted by ascending priority; the sort is stable, so records
/// of equal priority keep their stored order. The stored document is not
/// touched.
pub fn list_paths(config: &Config, tag: Option<&String>) -> (r: Vec<Waypoint>)
    ensures
        views_of(r@).to_multiset() == listed(
            views_of(config.waypoints@),
            match tag {
                Option::None => Option::None,
                Option::Some(t) => Option::Some(t@),
            },
        ).to_multiset(),
        sorted_by_priority(views_of(r@)),
        forall|p: u32| #[trigger] with_priority(views_of(r@), p) == with_priority(
            listed(
                views_of(config.waypoints@),
                match tag {
                    Option::None => Option::None,
                    Option::Some(t) => Option::Some(t@),
                },
            ),
            p,
        ),
{
    let mut selected: Vec<Waypoint> = Vec::new();
    match tag {
        None => {
            let mut i: usize = 0;
            while i < config.waypoints.len()
                invariant
                    i <= config.waypoints@.len(),
                    views_of(selected@) == views_of(config.waypoints@).take(i as int),
                decreases config.waypoints@.len() - i,
            {
                let ghost sel0 = views_of(selected@);
                let w = config.waypoints[i].clone();
                proof {
                    assert(w@ == config.waypoints@[i as int]@);
                }
                selected.push(w);
                proof {
                    assert(views_of(selected@) =~= sel0.push(config.waypoints@[i as int]@));
                    assert(views_of(config.waypoints@).take(i + 1) =~= sel0.push(
                        config.waypoints@[i as int]@,
                    ));
                }
                i += 1;
            }
            proof {
                assert(views_of(config.waypoints@).take(config.waypoints@.len() as int)
                    =~= views_of(config.waypoints@));
            }
        },
        Some(t) => {
            let mut i: usize = 0;
            while i < config.waypoints.len()
                invariant
                    i <= config.waypoints@.len(),
                    views_of(selected@) == tag_filter(
                        views_of(config.waypoints@).take(i as int),
                        t@,
                    ),
                decreases config.waypoints@.len() - i,
            {
                let ghost vs = views_of(config.waypoints@);
                proof {
                    assert(vs.take(i + 1).drop_last() =~= vs.take(i as int));
                    assert(vs.take(i + 1).last() == vs[i as int]);
                    assert(vs[i as int] == config.waypoints@[i as int]@);
                }
                if tags_contain(&config.waypoints[i].tags, t) {
                    let ghost sel0 = views_of(selected@);
                    let w = config.waypoints[i].clone();
                    proof {
                        assert(w@ == config.waypoints@[i as int]@);
                        assert(w@.tags.contains(t@));
                    }
                    selected.push(w);
                    proof {
                        assert(views_of(selected@) =~= sel0.push(config.waypoints@[i as int]@));
                        assert(views_of(selected@) =~= tag_filter(vs.take(i + 1), t@));
                    }
                }
                i += 1;
            }
            proof {
                assert(views_of(config.waypoints@).take(config.waypoints@.len() as int)
                    =~= views_of(config.waypoints@));
            }
        },
    }
    sort_by_priority(selected)
}

/// Sorts waypoints by ascending priority, keeping exactly the given records.
/// The sort is stable: records of equal priority keep their input order —
/// for every priority, the result restricted to it equals the input
/// restricted to it.
pub fn sort_by_priority(ws: Vec<Waypoint>) -> (r: Vec<Waypoint>)
    ensures
        views_of(r@).to_multiset() == views_of(ws@).to_multiset(),
        sorted_by_priority(views_of(r@)),
        forall|p: u32| #[trigger] with_priority(views_of(r@), p) == with_priority(
            views_of(ws@),
            p,
        ),
{
    broadcast use vstd::seq_lib::group_to_multiset_ensures;

    let mut rem = ws;
    let mut out: Vec<Waypoint> = Vec::new();
    proof {
        assert(views_of(out@) =~= Seq::<WaypointView>::empty());
        assert(views_of(out@).to_multiset().add(views_of(rem@).to_multiset()) =~= views_of(
            ws@,
        ).to_multiset());
        assert forall|p: u32|
            #[trigger] with_priority(views_of(out@), p) + with_priority(views_of(rem@), p)
                == with_priority(views_of(ws@), p) by {
            assert(with_priority(views_of(out@), p) == Seq::<WaypointView>::empty());
            assert(Seq::<WaypointView>::empty() + with_priority(views_of(rem@), p)
                =~= with_priority(views_of(ws@), p));
        }
    }
    while rem.len() > 0
        invariant
            views_of(out@).to_multiset().add(views_of(rem@).to_multiset()) == views_of(
                ws@,
            ).to_multiset(),
            sorted_by_priority(views_of(out@)),
            forall|a: int, b: int|
                0 <= a < out@.len() && 0 <= b < rem@.len() ==> #[trigger] views_of(
                    out@,
                )[a].priority <= #[trigger] views_of(rem@)[b].priority,
            forall|p: u32|
                #[trigger] with_priority(views_of(out@), p) + with_priority(views_of(rem@), p)
                    == with_priority(views_of(ws@), p),
        decreases rem@.len(),
    {
        let mut mi: usize = 0;
        let mut k: usize = 1;
        while k < rem.len()
            invariant
                mi < k <= rem@.len() || (k <= rem@.len() && mi == 0),
                mi < rem@.len(),
                rem@.len() > 0,
                forall|j: int| 0 <= j < k ==> rem@[mi as int].priority <= #[trigger] rem@[j].priority,
                forall|j: int| 0 <= j < mi ==> rem@[mi as int].priority < #[trigger] rem@[j].priority,
            decreases rem@.len() - k,
        {
            if rem[k].priority < rem[mi].priority {
                mi = k;
            }
            k += 1;
        }
        let ghost vs0 = views_of(rem@);
        let ghost outs0 = views_of(out@);
        let w = rem.remove(mi);
        out.push(w);
        proof {
            assert(views_of(rem@) =~= vs0.remove(mi as int));
            assert(views_of(out@) =~= outs0.push(vs0[mi as int]));
            assert(views_of(out@).to_multiset() =~= outs0.to_multiset().insert(vs0[mi as int]));
            assert(views_of(rem@).to_multiset() =~= vs0.to_multiset().remove(vs0[mi as int]));
            assert(vs0.to_multiset().count(vs0[mi as int]) > 0);
            assert(views_of(out@).to_multiset().add(views_of(rem@).to_multiset()) =~= outs0
                .to_multiset().add(vs0.to_multiset()));
            assert(forall|b: int|
                0 <= b < views_of(rem@).len() ==> vs0[mi as int].priority <= #[trigger] views_of(
                    rem@,
                )[b].priority);
            assert(sorted_by_priority(views_of(out@)));
            assert(forall|j: int| 0 <= j < mi ==> vs0[j].priority != vs0[mi as int].priority);
            assert forall|p: u32|
                #[trigger] with_priority(views_of(out@), p) + with_priority(views_of(rem@), p)
                    == with_priority(views_of(ws@), p) by {
                lemma_with_priority_remove(vs0, mi as int, p);
                lemma_with_priority_push(outs0, vs0[mi as int], p);
                if p == vs0[mi as int].priority {
                    assert(with_priority(outs0, p).push(vs0[mi as int]) + with_priority(
                        views_of(rem@),
                        p,
                    ) =~= with_priority(outs0, p) + (seq![vs0[mi as int]] + with_priority(
                        views_of(rem@),
                        p,
                    )));
                }
            }
        }
    }
    proof {
        assert(views_of(rem@).to_multiset() =~= Multiset::<WaypointView>::empty());
        assert(views_of(out@).to_multiset().add(Multiset::<WaypointView>::empty()) =~= views_of(
            out@,
        ).to_multiset());
        assert forall|p: u32| #[trigger] with_priority(views_of(out@), p) == with_priority(
            views_of(ws@),
            p,
        ) by {
            assert(views_of(rem@).len() == 0);
            assert(with_priority(views_of(rem@), p) == Seq::<WaypointView>::empty());
            assert(with_priority(views_of(out@), p) + Seq::<WaypointView>::empty()
                =~= with_priority(views_of(out@), p));
        }
    }
    out
}

} // verus!

verus! {

/// All waypoints except those whose location equals the given one, in stored
/// order.
pub open spec fn without_location(ws: Seq<WaypointView>, loc: Seq<char>) -> Seq<WaypointView>
    decreases ws.len(),
{
    if ws.len() == 0 {
        Seq::<WaypointView>::empty()
    } else {
        let rest = without_location(ws.drop_last(), loc);
        if ws.last().location == loc {
            rest
        } else {
            rest.push(ws.last())
        }
    }
}

/// Deletes every waypoint whose location equals the selection. The exported
/// path string is not touched here: the caller saves next, which recomputes
/// it.
pub fn remove_path(config: &mut Config, selected: &String)
    ensures
        final(config).path == old(config).path,
        final(config).metadata == old(config).metadata,
        views_of(final(config).waypoints@) == without_location(
            views_of(old(config).waypoints@),
            selected@,
        ),
{
    let mut kept: Vec<Waypoint> = Vec::new();
    let mut i: usize = 0;
    let ghost vs = views_of(old(config).waypoints@);
    while i < config.waypoints.len()
        invariant
            i <= config.waypoints@.len(),
            config.waypoints == old(config).waypoints,
            config.path == old(config).path,
            config.metadata == old(config).metadata,
            vs == views_of(old(config).waypoints@),
            views_of(kept@) == without_location(vs.take(i as int), selected@),
        decreases config.waypoints@.len() - i,
    {
        proof {
            assert(vs.take(i + 1).drop_last() =~= vs.take(i as int));
            assert(vs.take(i + 1).last() == vs[i as int]);
            assert(vs[i as int] == config.waypoints@[i as int]@);
        }
        if !(config.waypoints[i].location == *selected) {
            let ghost k0 = views_of(kept@);
            let w = config.waypoints[i].clone();
            proof {
                assert(w@ == config.waypoints@[i as int]@);
            }
            kept.push(w);
            proof {
                assert(views_of(kept@) =~= k0.push(vs[i as int]));
            }
        }
        i += 1;
    }
    proof {
        assert(vs.take(config.waypoints@.len() as int) =~= vs);
    }
    config.waypoints = kept;
}

/// The index of the first waypoint whose location equals the given one, or
/// -1 when there is none.
pub open spec fn first_loc_index(ws: Seq<WaypointView>, loc: Seq<char>) -> int
    decreases ws.len(),
{
    if ws.len() == 0 {
        -1
    } else if ws[0].location == loc {
        0
    } else {
        let r = first_loc_index(ws.skip(1), loc);
        if r < 0 {
            -1
        } else {
            r + 1
        }
    }
}

/// Finds the first waypoint whose location equals the given one.
pub fn find_location(ws: &Vec<Waypoint>, loc: &String) -> (r: Option<usize>)
    ensures
        match r {
            Some(i) => i < ws@.len() && first_loc_index(views_of(ws@), loc@) == i,
            None => first_loc_index(views_of(ws@), loc@) < 0,
        },
{
    let ghost vs = views_of(ws@);
    let mut i: usize = 0;
    proof {
        assert(vs.skip(0) =~= vs);
    }
    while i < ws.len()
        invariant
            i <= ws@.len(),
            vs == views_of(ws@),
            first_loc_index(vs, loc@) == if first_loc_index(vs.skip(i as int), loc@) < 0 {
                -1
            } else {
                first_loc_index(vs.skip(i as int), loc@) + i
            },
        decreases ws@.len() - i,
    {
        proof {
            assert(vs.skip(i as int)[0] == vs[i as int]);
            assert(vs[i as int] == ws@[i as int]@);
            assert(vs.skip(i as int).skip(1) =~= vs.skip(i + 1));
        }
        if ws[i].location == *loc {
            return Some(i);
        }
        i += 1;
    }
    proof {
        assert(vs.skip(vs.len() as int).len() == 0);
    }
    None
}

/// Replaces, in place, the first waypoint whose location equals the given
/// one. Fails with `NotFound` when no waypoint has that location; the
/// document is then unchanged. The caller saves next on success.
pub fn edit_path(config: &mut Config, location: &String, replacement: Waypoint) -> (r: Result<
    (),
    WpError,
>)
    ensures
        final(config).path == old(config).path,
        final(config).metadata == old(config).metadata,
        ({
            let vs = views_of(old(config).waypoints@);
            let i = first_loc_index(vs, location@);
            match r {
                Ok(()) => i >= 0 && views_of(final(config).waypoints@) == vs.update(
                    i,
                    replacement@,
                ),
                Err(e) => i < 0 && e == WpError::NotFound && *final(config) == *old(config),
            }
        }),
{
    let ghost vs = views_of(old(config).waypoints@);
    match find_location(&config.waypoints, location) {
        None => Err(WpError::NotFound),
        Some(i) => {
            let ghost before = config.waypoints@;
            let ghost rv = replacement@;
            let _ = config.waypoints.remove(i);
            config.waypoints.insert(i, replacement);
            proof {
                assert(config.waypoints@ =~= before.update(i as int, config.waypoints@[i as int]));
                assert(views_of(config.waypoints@) =~= vs.update(i as int, rv));
            }
            Ok(())
        },
    }
}

/// Appends one waypoint to the document. The caller saves next.
pub fn add_path(config: &mut Config, w: Waypoint)
    ensures
        final(config).path == old(config).path,
        final(config).metadata == old(config).metadata,
        views_of(final(config).waypoints@) == views_of(old(config).waypoints@).push(w@),
{
    let ghost vs = views_of(old(config).waypoints@);
    let ghost wv = w@;
    config.waypoints.push(w);
    proof {
        assert(views_of(config.waypoints@) =~= vs.push(wv));
    }
}

/// The cached exported path string, as the export command prints it.
pub fn export_path(config: &Config) -> (r: String)
    ensures
        r@ == config.path@,
{
    config.path.clone()
}

/// Where the config file lives, relative to the home directory.
pub open spec fn config_rel_path() -> Seq<char> {
    "/.config/waypoint/config.json"@
}

/// The config file location under the home directory. Fails with
/// `ConfigError` when no home directory is available: a missing home is a
/// hard error, never folded into the path.
pub fn get_config_path(home: Option<String>) -> (r: Result<String, WpError>)
    ensures
        match r {
            Ok(p) => home matches Some(h) && p@ == h@ + config_rel_path(),
            Err(e) => home is None && e == WpError::ConfigError,
        },
{
    match home {
        None => Err(WpError::ConfigError),
        Some(h) => Ok(h.concat("/.config/waypoint/config.json")),
    }
}

} // verus!
