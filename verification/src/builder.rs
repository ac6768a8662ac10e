use crate::bitfield::{
    bitfield_bit, bitfield_empty, bitfield_same, bitfield_union, bits_of, StopBitfield,
    STOP_BITFIELD_SIZE_BITS,
};
use crate::feed::{does_trip_run, Direction, Feed, ServiceDate};
use crate::network::{
    trips_before, Network, Route, RouteIndex, Stop, StopIndex, StopTime, Timestamp, TripOrder,
};
use vstd::prelude::*;

verus! {

/// Why a feed cannot be made into a network.
#[derive(Debug)]
pub enum BuildError {
    /// The feed has more stops than a stop index can count.
    TooManyStops { count: usize },
    /// The feed has more trips than a trip index can count. As every route
    /// has a trip, this is also where a feed with too many routes ends.
    TooManyTrips { count: usize },
    /// The feed says nothing of the service of a trip.
    MissingService { trip_id: String },
    /// The trips of one line that run on the day call at more different
    /// stops than the key of a route has bits for, one bit being kept for the
    /// direction. `stops` names the first stops of the line, one too many.
    TooManyStopsInRoute { route_id: String, stops: Vec<String> },
}

/// `v` lists the trips that go into the network, in the feed's order.
pub open spec fn is_retained_list(feed: Feed, date: ServiceDate, v: Seq<usize>) -> bool {
    &&& forall|k: int| 0 <= k < v.len() ==> feed.retained(#[trigger] v[k] as int, date)
    &&& forall|k: int, l: int| 0 <= k < l < v.len() ==> v[k] < v[l]
    &&& forall|t: int| feed.retained(t, date) ==> exists|k: int| 0 <= k < v.len() && #[trigger] v[k] == t
}

/// Trip `t` is the first of whose service the feed says nothing.
pub open spec fn first_without_service(feed: Feed, date: ServiceDate, t: int) -> bool {
    &&& 0 <= t < feed.trips@.len()
    &&& feed.trip_runs(t, date) is None
    &&& forall|u: int| 0 <= u < t ==> (#[trigger] feed.trip_runs(u, date)) is Some
}

/// The trips that run on a day and call at a stop, in the feed's order.
fn retained_trips(feed: &Feed, date: ServiceDate) -> (r: Result<Vec<usize>, BuildError>)
    ensures
        r matches Ok(v) ==> is_retained_list(*feed, date, v@) && forall|u: int|
            0 <= u < feed.trips@.len() ==> (#[trigger] feed.trip_runs(u, date)) is Some,
        r matches Err(e) ==> e matches BuildError::MissingService { trip_id } && exists|t: int|
            first_without_service(*feed, date, t) && trip_id@ == feed.trips@[t].id@,
{
    let mut v: Vec<usize> = Vec::new();
    let mut t: usize = 0;
    while t < feed.trips.len()
        invariant
            t <= feed.trips@.len(),
            forall|u: int| 0 <= u < t ==> (#[trigger] feed.trip_runs(u, date)) is Some,
            forall|k: int| 0 <= k < v@.len() ==> feed.retained(#[trigger] v@[k] as int, date),
            forall|k: int| 0 <= k < v@.len() ==> (#[trigger] v@[k]) < t,
            forall|k: int, l: int| 0 <= k < l < v@.len() ==> v@[k] < v@[l],
            forall|u: int|
                0 <= u < t && feed.retained(u, date) ==> exists|k: int|
                    0 <= k < v@.len() && #[trigger] v@[k] == u,
        decreases feed.trips@.len() - t,
    {
        let trip = &feed.trips[t];
        match does_trip_run(feed, trip, date) {
            None => {
                assert(first_without_service(*feed, date, t as int));
                return Err(BuildError::MissingService { trip_id: trip.id.clone() });
            },
            Some(runs) => {
                if runs && trip.stop_times.len() > 0 {
                    let ghost before = v@;
                    v.push(t);
                    proof {
                        assert forall|u: int|
                            0 <= u < t + 1 && feed.retained(u, date) implies exists|k: int|
                            0 <= k < v@.len() && #[trigger] v@[k] == u by {
                            if u < t {
                                let k = choose|k: int| 0 <= k < before.len() && #[trigger] before[k] == u;
                                assert(v@[k] == u);
                            } else {
                                assert(v@[before.len() as int] == u);
                            }
                        }
                    }
                }
            },
        }
        t += 1;
    }
    Ok(v)
}

proof fn lemma_increasing_bound(v: Seq<usize>, bound: int)
    requires
        forall|k: int, l: int| 0 <= k < l < v.len() ==> v[k] < v[l],
        forall|k: int| 0 <= k < v.len() ==> v[k] < bound,
    ensures
        v.len() <= bound || v.len() == 0,
    decreases v.len(),
{
    if v.len() > 0 {
        let d = v.drop_last();
        assert forall|k: int, l: int| 0 <= k < l < d.len() implies d[k] < d[l] by {
            assert(v[k] < v[l]);
        }
        assert forall|k: int| 0 <= k < d.len() implies d[k] < bound - 1 by {
            assert(v[k] < v[v.len() - 1]);
        }
        lemma_increasing_bound(d, bound - 1);
        assert(v.len() == d.len() + 1);
        assert(0 <= v[0] < bound);
    }
}

/// The name of the line of trip `t`.
pub open spec fn line_id(feed: Feed, t: int) -> Seq<char> {
    feed.trips@[t].route_id@
}

/// A trip of the line `id` that goes into the network calls at stop `s`.
pub open spec fn line_calls(feed: Feed, date: ServiceDate, id: Seq<char>, s: usize) -> bool {
    exists|t: int, j: int|
        feed.retained(t, date) && line_id(feed, t) == id && 0 <= j
            < feed.trips@[t].stop_times@.len() && (#[trigger] feed.trips@[t].stop_times@[j]).stop
            == s
}

/// `stops` are different stops at which the line `id` calls.
pub open spec fn stops_of_line(feed: Feed, date: ServiceDate, id: Seq<char>, stops: Seq<usize>) -> bool {
    &&& stops.no_duplicates()
    &&& forall|i: int| 0 <= i < stops.len() ==> line_calls(feed, date, id, #[trigger] stops[i])
}

/// The line `id` calls at as many different stops as a route key has bits,
/// or more: one too many, as one bit is kept for the direction.
pub open spec fn crowded(feed: Feed, date: ServiceDate, id: Seq<char>) -> bool {
    exists|stops: Seq<usize>|
        #[trigger] stops_of_line(feed, date, id, stops) && stops.len() >= STOP_BITFIELD_SIZE_BITS
}

/// Some line of a trip that goes into the network calls at too many stops.
pub open spec fn over_ceiling(feed: Feed, date: ServiceDate) -> bool {
    exists|t: int| feed.retained(t, date) && crowded(feed, date, #[trigger] line_id(feed, t))
}

/// `line_of` gives each listed trip the number of its line, and `reps`
/// names one trip of each line.
pub open spec fn is_line_grouping(
    feed: Feed,
    trips: Seq<usize>,
    line_of: Seq<usize>,
    reps: Seq<usize>,
) -> bool {
    &&& line_of.len() == trips.len()
    &&& forall|k: int| 0 <= k < line_of.len() ==> (#[trigger] line_of[k]) < reps.len()
    &&& forall|k: int|
        0 <= k < line_of.len() ==> line_id(feed, trips[k] as int) == line_id(
            feed,
            reps[#[trigger] line_of[k] as int] as int,
        )
    &&& forall|g: int| 0 <= g < reps.len() ==> trips.contains(#[trigger] reps[g])
    &&& forall|g: int, h: int|
        0 <= g < h < reps.len() ==> line_id(feed, reps[g] as int) != line_id(feed, reps[h] as int)
}

/// Numbers the lines of the listed trips in the order in which they are
/// first met.
fn group_lines(feed: &Feed, trips: &Vec<usize>) -> (r: (Vec<usize>, Vec<usize>))
    requires
        forall|k: int| 0 <= k < trips@.len() ==> (#[trigger] trips@[k]) < feed.trips@.len(),
    ensures
        is_line_grouping(*feed, trips@, r.0@, r.1@),
{
    let mut line_of: Vec<usize> = Vec::new();
    let mut reps: Vec<usize> = Vec::new();
    let mut k: usize = 0;
    while k < trips.len()
        invariant
            k <= trips@.len(),
            forall|j: int| 0 <= j < trips@.len() ==> (#[trigger] trips@[j]) < feed.trips@.len(),
            forall|g: int| 0 <= g < reps@.len() ==> (#[trigger] reps@[g]) < feed.trips@.len(),
            is_line_grouping(*feed, trips@.subrange(0, k as int), line_of@, reps@),
        decreases trips@.len() - k,
    {
        let t = trips[k];
        let ghost done = trips@.subrange(0, k as int);
        let ghost next = trips@.subrange(0, k + 1);
        let ghost old_line_of = line_of@;
        let ghost old_reps = reps@;
        let mut g: usize = 0;
        let mut found = false;
        while g < reps.len() && !found
            invariant
                g <= reps@.len(),
                t < feed.trips@.len(),
                forall|h: int| 0 <= h < reps@.len() ==> (#[trigger] reps@[h]) < feed.trips@.len(),
                forall|h: int|
                    0 <= h < g && !(found && h == g - 1) ==> line_id(
                        *feed,
                        #[trigger] reps@[h] as int,
                    ) != line_id(*feed, t as int),
                found ==> g > 0 && line_id(*feed, reps@[g - 1] as int) == line_id(*feed, t as int),
            decreases reps@.len() - g + if found { 0int } else { 1int },
        {
            if feed.trips[reps[g]].route_id == feed.trips[t].route_id {
                found = true;
            }
            g += 1;
        }
        if found {
            line_of.push(g - 1);
        } else {
            reps.push(t);
            line_of.push(reps.len() - 1);
        }
        proof {
            assert(line_of@.len() == next.len());
            assert forall|j: int| 0 <= j < line_of@.len() implies (#[trigger] line_of@[j])
                < reps@.len() by {
                if j < k {
                    assert(line_of@[j] == old_line_of[j]);
                }
            }
            assert forall|j: int| 0 <= j < line_of@.len() implies line_id(*feed, next[j] as int)
                == line_id(*feed, reps@[#[trigger] line_of@[j] as int] as int) by {
                if j < k {
                    assert(next[j] == done[j]);
                    assert(line_of@[j] == old_line_of[j]);
                    assert(line_id(*feed, done[j] as int) == line_id(
                        *feed,
                        old_reps[old_line_of[j] as int] as int,
                    ));
                }
            }
            assert forall|h: int| 0 <= h < reps@.len() implies next.contains(
                #[trigger] reps@[h],
            ) by {
                if h < old_reps.len() {
                    assert(done.contains(old_reps[h]));
                    let j = choose|j: int| 0 <= j < done.len() && done[j] == old_reps[h];
                    assert(next[j] == reps@[h]);
                } else {
                    assert(next[k as int] == reps@[h]);
                }
            }
            assert forall|a: int, b: int| 0 <= a < b < reps@.len() implies line_id(
                *feed,
                reps@[a] as int,
            ) != line_id(*feed, reps@[b] as int) by {
                if b < old_reps.len() {
                    assert(line_id(*feed, old_reps[a] as int) != line_id(
                        *feed,
                        old_reps[b] as int,
                    ));
                } else {
                    assert(line_id(*feed, old_reps[a] as int) != line_id(*feed, t as int));
                }
            }
            assert(is_line_grouping(*feed, next, line_of@, reps@));
        }
        k += 1;
    }
    assert(trips@.subrange(0, k as int) =~= trips@);
    (line_of, reps)
}

/// The position of a stop in a list of stops, if it is there.
fn position_of(stops: &Vec<usize>, stop: usize) -> (r: Option<usize>)
    ensures
        r matches Some(p) ==> p < stops@.len() && stops@[p as int] == stop,
        r is None ==> !stops@.contains(stop),
{
    let mut p: usize = 0;
    while p < stops.len()
        invariant
            p <= stops@.len(),
            forall|i: int| 0 <= i < p ==> stops@[i] != stop,
        decreases stops@.len() - p,
    {
        if stops[p] == stop {
            return Some(p);
        }
        p += 1;
    }
    None
}

/// What is kept true of the stops found for each line: they are different
/// stops at which the line calls, fewer than a route key has bits.
pub open spec fn line_stops_ok(
    feed: Feed,
    date: ServiceDate,
    reps: Seq<usize>,
    line_stops: Seq<Vec<usize>>,
) -> bool {
    &&& line_stops.len() == reps.len()
    &&& forall|l: int|
        0 <= l < line_stops.len() ==> stops_of_line(
            feed,
            date,
            line_id(feed, reps[l] as int),
            (#[trigger] line_stops[l])@,
        ) && line_stops[l]@.len() < STOP_BITFIELD_SIZE_BITS
}

/// Every stop of the first `k` listed trips, and of the first `j` calls of
/// the next, is among the stops of the trip's line.
pub open spec fn line_stops_cover(
    feed: Feed,
    trips: Seq<usize>,
    line_of: Seq<usize>,
    line_stops: Seq<Vec<usize>>,
    k: int,
    j: int,
) -> bool {
    forall|a: int, b: int|
        0 <= a < trips.len() && 0 <= b < feed.trips@[trips[a] as int].stop_times@.len() && (a < k
            || (a == k && b < j)) ==> line_stops[line_of[a] as int]@.contains(
            (#[trigger] feed.trips@[trips[a] as int].stop_times@[b]).stop,
        )
}

/// The short names of stops.
fn names_of(feed: &Feed, stops: &Vec<usize>) -> (names: Vec<String>)
    requires
        forall|i: int| 0 <= i < stops@.len() ==> (#[trigger] stops@[i]) < feed.stops@.len(),
    ensures
        names@.len() == stops@.len(),
        forall|i: int|
            0 <= i < names@.len() ==> crate::utils::is_prefix_before(
                feed.stops@[stops@[i] as int].name@,
                " Railway Station"@,
                (#[trigger] names@[i])@,
            ),
{
    let mut names: Vec<String> = Vec::new();
    let mut i: usize = 0;
    while i < stops.len()
        invariant
            i <= stops@.len(),
            forall|i: int| 0 <= i < stops@.len() ==> (#[trigger] stops@[i]) < feed.stops@.len(),
            names@.len() == i,
            forall|x: int|
                0 <= x < names@.len() ==> crate::utils::is_prefix_before(
                    feed.stops@[stops@[x] as int].name@,
                    " Railway Station"@,
                    (#[trigger] names@[x])@,
                ),
        decreases stops@.len() - i,
    {
        let name = crate::utils::get_short_stop_name(feed.stops[stops[i]].name.as_str());
        names.push(name.to_owned());
        i += 1;
    }
    names
}

/// `found` are the first stops of the line `route_id`, one more than a route
/// key has bits for, and `names` are their short names.
pub open spec fn names_too_many(
    feed: Feed,
    date: ServiceDate,
    route_id: Seq<char>,
    names: Seq<String>,
    found: Seq<usize>,
) -> bool {
    &&& stops_of_line(feed, date, route_id, found)
    &&& found.len() == STOP_BITFIELD_SIZE_BITS
    &&& names.len() == found.len()
    &&& exists|t: int| feed.retained(t, date) && #[trigger] line_id(feed, t) == route_id
    &&& forall|i: int|
        0 <= i < found.len() ==> found[i] < feed.stops@.len() && crate::utils::is_prefix_before(
            feed.stops@[found[i] as int].name@,
            " Railway Station"@,
            (#[trigger] names[i])@,
        )
}

/// The different stops at which the trips of each line call, in the order
/// in which they are first met. A line with too many of them stops the build.
#[verifier::rlimit(30)]
fn collect_line_stops(
    feed: &Feed,
    date: Ghost<ServiceDate>,
    trips: &Vec<usize>,
    line_of: &Vec<usize>,
    reps: &Vec<usize>,
) -> (r: Result<Vec<Vec<usize>>, BuildError>)
    requires
        feed.wf(),
        is_retained_list(*feed, date@, trips@),
        is_line_grouping(*feed, trips@, line_of@, reps@),
    ensures
        r matches Ok(line_stops) ==> line_stops_ok(*feed, date@, reps@, line_stops@)
            && line_stops_cover(*feed, trips@, line_of@, line_stops@, trips@.len() as int, 0),
        r matches Err(e) ==> match e {
            BuildError::TooManyStopsInRoute { route_id, stops } => exists|found: Seq<usize>|
                #[trigger] names_too_many(*feed, date@, route_id@, stops@, found),
            _ => false,
        },
{
    let mut line_stops: Vec<Vec<usize>> = Vec::new();
    let mut l: usize = 0;
    while l < reps.len()
        invariant
            l <= reps@.len(),
            line_stops@.len() == l,
            forall|x: int| 0 <= x < l ==> (#[trigger] line_stops@[x])@.len() == 0,
        decreases reps@.len() - l,
    {
        line_stops.push(Vec::new());
        l += 1;
    }
    assert(line_stops_ok(*feed, date@, reps@, line_stops@));
    let mut k: usize = 0;
    while k < trips.len()
        invariant
            feed.wf(),
            is_retained_list(*feed, date@, trips@),
            is_line_grouping(*feed, trips@, line_of@, reps@),
            k <= trips@.len(),
            line_stops_ok(*feed, date@, reps@, line_stops@),
            line_stops_cover(*feed, trips@, line_of@, line_stops@, k as int, 0),
        decreases trips@.len() - k,
    {
        let t = trips[k];
        let line = line_of[k];
        assert(feed.retained(t as int, date@));
        let trip = &feed.trips[t];
        let mut j: usize = 0;
        while j < trip.stop_times.len()
            invariant
                feed.wf(),
                is_retained_list(*feed, date@, trips@),
                is_line_grouping(*feed, trips@, line_of@, reps@),
                k < trips@.len(),
                t == trips@[k as int],
                line == line_of@[k as int],
                feed.retained(t as int, date@),
                *trip == feed.trips@[t as int],
                j <= trip.stop_times@.len(),
                line_stops_ok(*feed, date@, reps@, line_stops@),
                line_stops_cover(*feed, trips@, line_of@, line_stops@, k as int, j as int),
            decreases trip.stop_times@.len() - j,
        {
            let stop = trip.stop_times[j].stop;
            let ghost before = line_stops@;
            if position_of(&line_stops[line], stop).is_none() {
                line_stops[line].push(stop);
                proof {
                    let id = line_id(*feed, reps@[line as int] as int);
                    assert(line_id(*feed, t as int) == id);
                    assert(feed.trips@[t as int].stop_times@[j as int].stop == stop);
                    assert(line_calls(*feed, date@, id, stop));
                    let grown = line_stops@[line as int]@;
                    assert(grown == before[line as int]@.push(stop));
                    assert(stops_of_line(*feed, date@, id, before[line as int]@));
                    assert forall|a: int, b: int|
                        0 <= a < grown.len() && 0 <= b < grown.len() && a != b implies grown[a]
                        != grown[b] by {
                        if a < grown.len() - 1 && b < grown.len() - 1 {
                            assert(before[line as int]@[a] != before[line as int]@[b]);
                        } else if a < grown.len() - 1 {
                            assert(before[line as int]@.contains(grown[a]));
                        } else {
                            assert(before[line as int]@.contains(grown[b]));
                        }
                    }
                    assert forall|i: int| 0 <= i < grown.len() implies line_calls(
                        *feed,
                        date@,
                        id,
                        #[trigger] grown[i],
                    ) by {
                        if i < grown.len() - 1 {
                            assert(grown[i] == before[line as int]@[i]);
                        }
                    }
                    assert(stops_of_line(*feed, date@, id, grown));
                }
                if line_stops[line].len() >= STOP_BITFIELD_SIZE_BITS {
                    let found = &line_stops[line];
                    proof {
                        assert forall|i: int| 0 <= i < found@.len() implies (#[trigger] found@[i])
                            < feed.stops@.len() by {
                            let id = line_id(*feed, reps@[line as int] as int);
                            assert(line_calls(*feed, date@, id, found@[i]));
                        }
                    }
                    let stops = names_of(feed, found);
                    let route_id = feed.trips[reps[line]].route_id.clone();
                    proof {
                        assert(trips@.contains(reps@[line as int]));
                        let at = choose|at: int|
                            0 <= at < trips@.len() && trips@[at] == reps@[line as int];
                        assert(feed.retained(trips@[at] as int, date@));
                        assert(line_id(*feed, reps@[line as int] as int) == route_id@);
                        assert(stops_of_line(*feed, date@, route_id@, found@));
                        assert(before[line as int]@.len() < STOP_BITFIELD_SIZE_BITS);
                        assert(found@.len() == STOP_BITFIELD_SIZE_BITS);
                        assert(line_id(*feed, trips@[at] as int) == route_id@);
                        assert(names_too_many(*feed, date@, route_id@, stops@, found@));
                    }
                    let ghost names = stops@;
                    let ghost id = route_id@;
                    let failure = BuildError::TooManyStopsInRoute { route_id, stops };
                    assert(failure->TooManyStopsInRoute_stops@ == names);
                    assert(failure->TooManyStopsInRoute_route_id@ == id);
                    assert(names_too_many(
                        *feed,
                        date@,
                        failure->TooManyStopsInRoute_route_id@,
                        failure->TooManyStopsInRoute_stops@,
                        found@,
                    ));
                    return Err(failure);
                }
            }
            proof {
                assert forall|l: int| 0 <= l < line_stops@.len() implies stops_of_line(
                    *feed,
                    date@,
                    line_id(*feed, reps@[l] as int),
                    (#[trigger] line_stops@[l])@,
                ) && line_stops@[l]@.len() < STOP_BITFIELD_SIZE_BITS by {
                    if l != line {
                        assert(line_stops@[l] == before[l]);
                    }
                }
                assert forall|a: int, b: int|
                    0 <= a < trips@.len() && 0 <= b
                        < feed.trips@[trips@[a] as int].stop_times@.len() && (a < k || (a == k
                        && b < j + 1)) implies line_stops@[line_of@[a] as int]@.contains(
                    (#[trigger] feed.trips@[trips@[a] as int].stop_times@[b]).stop,
                ) by {
                    let s = feed.trips@[trips@[a] as int].stop_times@[b].stop;
                    let la = line_of@[a] as int;
                    if a < k || b < j {
                        assert(before[la]@.contains(s));
                        let i = choose|i: int| 0 <= i < before[la]@.len() && before[la]@[i] == s;
                        if la == line {
                            assert(line_stops@[la]@[i] == s);
                        } else {
                            assert(line_stops@[la] == before[la]);
                        }
                    } else {
                        if before[la]@.contains(s) {
                            let i = choose|i: int| 0 <= i < before[la]@.len() && before[la]@[i] == s;
                            assert(line_stops@[la]@[i] == s);
                        } else {
                            assert(line_stops@[la]@[before[la]@.len() as int] == s);
                        }
                    }
                }
            }
            j += 1;
        }
        k += 1;
    }
    Ok(line_stops)
}

/// A list of different items of which each is in another list is no longer
/// than that list.
proof fn lemma_distinct_within(a: Seq<usize>, b: Seq<usize>)
    requires
        a.no_duplicates(),
        forall|i: int| 0 <= i < a.len() ==> b.contains(#[trigger] a[i]),
    ensures
        a.len() <= b.len(),
{
    broadcast use vstd::seq_lib::seq_to_set_is_finite;

    a.unique_seq_to_set();
    b.lemma_cardinality_of_set();
    assert(a.to_set().subset_of(b.to_set())) by {
        assert forall|x: usize| a.to_set().contains(x) implies b.to_set().contains(x) by {
            let i = choose|i: int| 0 <= i < a.len() && a[i] == x;
            assert(b.contains(a[i]));
        }
    }
    vstd::set_lib::lemma_len_subset(a.to_set(), b.to_set());
}

/// Where the stops found for each line are fewer than a route key has bits,
/// no line calls at too many stops.
proof fn lemma_under_ceiling(
    feed: Feed,
    date: ServiceDate,
    trips: Seq<usize>,
    line_of: Seq<usize>,
    reps: Seq<usize>,
    line_stops: Seq<Vec<usize>>,
)
    requires
        is_retained_list(feed, date, trips),
        is_line_grouping(feed, trips, line_of, reps),
        line_stops_ok(feed, date, reps, line_stops),
        line_stops_cover(feed, trips, line_of, line_stops, trips.len() as int, 0),
    ensures
        !over_ceiling(feed, date),
{
    if over_ceiling(feed, date) {
        let t = choose|t: int| feed.retained(t, date) && crowded(feed, date, #[trigger] line_id(feed, t));
        let id = line_id(feed, t);
        let stops = choose|stops: Seq<usize>|
            #[trigger] stops_of_line(feed, date, id, stops) && stops.len()
                >= STOP_BITFIELD_SIZE_BITS;
        let k = choose|k: int| 0 <= k < trips.len() && #[trigger] trips[k] == t;
        let l = line_of[k] as int;
        assert(line_id(feed, trips[k] as int) == line_id(feed, reps[l] as int));
        assert forall|i: int| 0 <= i < stops.len() implies line_stops[l]@.contains(
            #[trigger] stops[i],
        ) by {
            assert(line_calls(feed, date, id, stops[i]));
            let (t2, j2) = choose|t2: int, j2: int|
                feed.retained(t2, date) && line_id(feed, t2) == id && 0 <= j2
                    < feed.trips@[t2].stop_times@.len() && (
                #[trigger] feed.trips@[t2].stop_times@[j2]).stop == stops[i];
            let k2 = choose|k2: int| 0 <= k2 < trips.len() && #[trigger] trips[k2] == t2;
            let l2 = line_of[k2] as int;
            assert(line_id(feed, trips[k2] as int) == line_id(feed, reps[l2] as int));
            if l2 < l {
                assert(line_id(feed, reps[l2] as int) != line_id(feed, reps[l] as int));
            } else if l < l2 {
                assert(line_id(feed, reps[l] as int) != line_id(feed, reps[l2] as int));
            }
            assert(line_stops[line_of[k2] as int]@.contains(
                feed.trips@[trips[k2] as int].stop_times@[j2].stop,
            ));
        }
        lemma_distinct_within(stops, line_stops[l]@);
        assert(line_stops[l]@.len() < STOP_BITFIELD_SIZE_BITS);
    }
}

/// The key of a trip among the trips of its line: the positions of its stops
/// among the stops of the line, and the highest position of all for a trip
/// that runs inbound.
pub open spec fn trip_bits(feed: Feed, t: int, line: Seq<usize>) -> Set<nat> {
    Set::new(
        |b: nat|
            (b < line.len() && feed.trip_stops(t).contains(line[b as int])) || (b
                == STOP_BITFIELD_SIZE_BITS - 1 && feed.trip_direction(t) == Direction::Inbound),
    )
}

/// The key of a trip after its first `j` stops.
pub open spec fn bits_upto(feed: Feed, t: int, line: Seq<usize>, j: int) -> Set<nat> {
    Set::new(
        |b: nat|
            (b < line.len() && feed.trip_stops(t).subrange(0, j).contains(line[b as int])) || (b
                == STOP_BITFIELD_SIZE_BITS - 1 && feed.trip_direction(t) == Direction::Inbound),
    )
}

/// The key of a trip among the trips of its line, as a wide integer.
pub fn trip_key(feed: &Feed, t: usize, line: &Vec<usize>) -> (key: StopBitfield)
    requires
        t < feed.trips@.len(),
        line@.len() < STOP_BITFIELD_SIZE_BITS,
        line@.no_duplicates(),
        forall|j: int|
            0 <= j < feed.trips@[t as int].stop_times@.len() ==> line@.contains(
                (#[trigger] feed.trips@[t as int].stop_times@[j]).stop,
            ),
    ensures
        bits_of(key) == trip_bits(*feed, t as int, line@),
{
    let trip = &feed.trips[t];
    let mut key = bitfield_empty();
    match trip.direction {
        Some(Direction::Inbound) => {
            key = bitfield_union(key, bitfield_bit((STOP_BITFIELD_SIZE_BITS - 1) as u32));
        },
        _ => {},
    }
    assert(bits_of(key) =~= bits_upto(*feed, t as int, line@, 0)) by {
        assert(feed.trip_stops(t as int).subrange(0, 0) =~= Seq::<usize>::empty());
    }
    let mut j: usize = 0;
    while j < trip.stop_times.len()
        invariant
            t < feed.trips@.len(),
            *trip == feed.trips@[t as int],
            line@.len() < STOP_BITFIELD_SIZE_BITS,
            line@.no_duplicates(),
            forall|j: int|
                0 <= j < feed.trips@[t as int].stop_times@.len() ==> line@.contains(
                    (#[trigger] feed.trips@[t as int].stop_times@[j]).stop,
                ),
            j <= trip.stop_times@.len(),
            bits_of(key) == bits_upto(*feed, t as int, line@, j as int),
        decreases trip.stop_times@.len() - j,
    {
        let stop = trip.stop_times[j].stop;
        assert(line@.contains(feed.trips@[t as int].stop_times@[j as int].stop));
        let ghost before = feed.trip_stops(t as int).subrange(0, j as int);
        let ghost after = feed.trip_stops(t as int).subrange(0, j + 1);
        match position_of(line, stop) {
            Some(p) => {
                key = bitfield_union(key, bitfield_bit(p as u32));
                proof {
                    assert(after =~= before.push(stop));
                    assert forall|b: nat| bits_of(key).contains(b) <==> bits_upto(
                        *feed,
                        t as int,
                        line@,
                        j + 1,
                    ).contains(b) by {
                        if b < line@.len() {
                            if after.contains(line@[b as int]) {
                                let i = choose|i: int|
                                    0 <= i < after.len() && after[i] == line@[b as int];
                                if i < j {
                                    assert(before[i] == line@[b as int]);
                                } else {
                                    assert(line@[b as int] == line@[p as int]);
                                }
                            }
                            if before.contains(line@[b as int]) {
                                let i = choose|i: int|
                                    0 <= i < before.len() && before[i] == line@[b as int];
                                assert(after[i] == line@[b as int]);
                            }
                            if b == p {
                                assert(after[j as int] == line@[b as int]);
                            }
                        }
                    }
                    assert(bits_of(key) =~= bits_upto(*feed, t as int, line@, j + 1));
                }
            },
            None => {},
        }
        j += 1;
    }
    proof {
        assert(feed.trip_stops(t as int).subrange(0, j as int) =~= feed.trip_stops(t as int));
        assert(bits_of(key) =~= trip_bits(*feed, t as int, line@));
    }
    key
}

/// The key of each listed trip among the trips of its line.
fn route_keys(
    feed: &Feed,
    trips: &Vec<usize>,
    line_of: &Vec<usize>,
    line_stops: &Vec<Vec<usize>>,
) -> (keys: Vec<StopBitfield>)
    requires
        line_of@.len() == trips@.len(),
        forall|k: int|
            0 <= k < trips@.len() ==> (#[trigger] trips@[k]) < feed.trips@.len() && line_of@[k]
                < line_stops@.len(),
        forall|l: int|
            0 <= l < line_stops@.len() ==> (#[trigger] line_stops@[l])@.no_duplicates()
                && line_stops@[l]@.len() < STOP_BITFIELD_SIZE_BITS,
        line_stops_cover(*feed, trips@, line_of@, line_stops@, trips@.len() as int, 0),
    ensures
        keys@.len() == trips@.len(),
        forall|k: int|
            0 <= k < keys@.len() ==> bits_of(#[trigger] keys@[k]) == trip_bits(
                *feed,
                trips@[k] as int,
                line_stops@[line_of@[k] as int]@,
            ),
{
    let mut keys: Vec<StopBitfield> = Vec::new();
    let mut k: usize = 0;
    while k < trips.len()
        invariant
            k <= trips@.len(),
            line_of@.len() == trips@.len(),
            forall|k: int|
                0 <= k < trips@.len() ==> (#[trigger] trips@[k]) < feed.trips@.len()
                    && line_of@[k] < line_stops@.len(),
            forall|l: int|
                0 <= l < line_stops@.len() ==> (#[trigger] line_stops@[l])@.no_duplicates()
                    && line_stops@[l]@.len() < STOP_BITFIELD_SIZE_BITS,
            line_stops_cover(*feed, trips@, line_of@, line_stops@, trips@.len() as int, 0),
            keys@.len() == k,
            forall|x: int|
                0 <= x < keys@.len() ==> bits_of(#[trigger] keys@[x]) == trip_bits(
                    *feed,
                    trips@[x] as int,
                    line_stops@[line_of@[x] as int]@,
                ),
        decreases trips@.len() - k,
    {
        let t = trips[k];
        let line = &line_stops[line_of[k]];
        proof {
            assert forall|j: int| 0 <= j < feed.trips@[t as int].stop_times@.len() implies line@.contains(
                (#[trigger] feed.trips@[t as int].stop_times@[j]).stop,
            ) by {
                assert(line_stops@[line_of@[k as int] as int]@.contains(
                    feed.trips@[trips@[k as int] as int].stop_times@[j].stop,
                ));
            }
        }
        let key = trip_key(feed, t, line);
        keys.push(key);
        k += 1;
    }
    keys
}

/// Whether two trips of the feed belong to one route.
fn same_route(feed: &Feed, a: usize, b: usize) -> (r: bool)
    requires
        a < feed.trips@.len(),
        b < feed.trips@.len(),
    ensures
        r == feed.same_route(a as int, b as int),
{
    let x = &feed.trips[a];
    let y = &feed.trips[b];
    if !(x.route_id == y.route_id) {
        return false;
    }
    let inbound_x = match x.direction {
        Some(Direction::Inbound) => true,
        _ => false,
    };
    let inbound_y = match y.direction {
        Some(Direction::Inbound) => true,
        _ => false,
    };
    if inbound_x != inbound_y {
        return false;
    }
    let n = x.stop_times.len();
    if n != y.stop_times.len() {
        assert(feed.trip_stops(a as int).len() != feed.trip_stops(b as int).len());
        return false;
    }
    let mut i: usize = 0;
    while i < n
        invariant
            a < feed.trips@.len(),
            b < feed.trips@.len(),
            *x == feed.trips@[a as int],
            *y == feed.trips@[b as int],
            n == x.stop_times@.len() == y.stop_times@.len(),
            i <= n,
            forall|j: int| 0 <= j < i ==> x.stop_times@[j].stop == y.stop_times@[j].stop,
        decreases n - i,
    {
        if x.stop_times[i].stop != y.stop_times[i].stop {
            assert(feed.trip_stops(a as int)[i as int] != feed.trip_stops(b as int)[i as int]);
            return false;
        }
        i += 1;
    }
    assert(feed.trip_stops(a as int) =~= feed.trip_stops(b as int));
    true
}

/// Trip `t` is one of the listed trips and belongs to group `g`.
pub open spec fn in_group(trips: Seq<usize>, group_of: Seq<usize>, g: int, t: usize) -> bool {
    exists|j: int| 0 <= j < trips.len() && #[trigger] trips[j] == t && group_of[j] == g
}

/// `group_of` puts each listed trip into a group with the trips of its route,
/// and `reps` names one trip of each group.
pub open spec fn is_grouping(
    feed: Feed,
    trips: Seq<usize>,
    group_of: Seq<usize>,
    reps: Seq<usize>,
) -> bool {
    &&& group_of.len() == trips.len()
    &&& forall|j: int| 0 <= j < group_of.len() ==> (#[trigger] group_of[j]) < reps.len()
    &&& forall|j: int|
        0 <= j < group_of.len() ==> feed.same_route(
            trips[j] as int,
            reps[#[trigger] group_of[j] as int] as int,
        )
    &&& forall|g: int| 0 <= g < reps.len() ==> in_group(trips, group_of, g, #[trigger] reps[g])
    &&& forall|g: int, h: int|
        0 <= g < h < reps.len() ==> !feed.same_route(reps[g] as int, reps[h] as int)
    &&& forall|g: int, h: int| 0 <= g < h < reps.len() ==> reps[g] < reps[h]
    &&& forall|j: int| 0 <= j < group_of.len() ==> reps[#[trigger] group_of[j] as int] <= trips[j]
}

/// Puts trips into groups by route, in the order in which the routes are
/// first met.
fn group_trips(feed: &Feed, trips: &Vec<usize>, keys: &Vec<StopBitfield>) -> (r: (
    Vec<usize>,
    Vec<usize>,
))
    requires
        forall|k: int| 0 <= k < trips@.len() ==> (#[trigger] trips@[k]) < feed.trips@.len(),
        forall|k: int, l: int| 0 <= k < l < trips@.len() ==> trips@[k] < trips@[l],
        keys@.len() == trips@.len(),
        forall|a: int, b: int|
            0 <= a < trips@.len() && 0 <= b < trips@.len() && feed.same_route(
                trips@[a] as int,
                trips@[b] as int,
            ) ==> bits_of(#[trigger] keys@[a]) == bits_of(#[trigger] keys@[b]),
    ensures
        is_grouping(*feed, trips@, r.0@, r.1@),
{
    let mut group_of: Vec<usize> = Vec::new();
    let mut reps: Vec<usize> = Vec::new();
    // Where in the list each group's first trip stands.
    let mut rep_at: Vec<usize> = Vec::new();
    let mut k: usize = 0;
    while k < trips.len()
        invariant
            k <= trips@.len(),
            keys@.len() == trips@.len(),
            forall|a: int, b: int| 0 <= a < b < trips@.len() ==> trips@[a] < trips@[b],
            forall|a: int, b: int|
                0 <= a < trips@.len() && 0 <= b < trips@.len() && feed.same_route(
                    trips@[a] as int,
                    trips@[b] as int,
                ) ==> bits_of(#[trigger] keys@[a]) == bits_of(#[trigger] keys@[b]),
            forall|j: int| 0 <= j < trips@.len() ==> (#[trigger] trips@[j]) < feed.trips@.len(),
            forall|g: int| 0 <= g < reps@.len() ==> (#[trigger] reps@[g]) < feed.trips@.len(),
            rep_at@.len() == reps@.len(),
            forall|g: int|
                0 <= g < rep_at@.len() ==> (#[trigger] rep_at@[g]) < trips@.len()
                    && trips@[rep_at@[g] as int] == reps@[g],
            is_grouping(*feed, trips@.subrange(0, k as int), group_of@, reps@),
        decreases trips@.len() - k,
    {
        let t = trips[k];
        let ghost done = trips@.subrange(0, k as int);
        let ghost next = trips@.subrange(0, k + 1);
        let ghost old_group_of = group_of@;
        let ghost old_reps = reps@;
        let mut g: usize = 0;
        let mut found = false;
        while g < reps.len() && !found
            invariant
                g <= reps@.len(),
                k < trips@.len(),
                t == trips@[k as int],
                t < feed.trips@.len(),
                keys@.len() == trips@.len(),
                forall|a: int, b: int|
                    0 <= a < trips@.len() && 0 <= b < trips@.len() && feed.same_route(
                        trips@[a] as int,
                        trips@[b] as int,
                    ) ==> bits_of(#[trigger] keys@[a]) == bits_of(#[trigger] keys@[b]),
                forall|h: int| 0 <= h < reps@.len() ==> (#[trigger] reps@[h]) < feed.trips@.len(),
                rep_at@.len() == reps@.len(),
                forall|h: int|
                    0 <= h < rep_at@.len() ==> (#[trigger] rep_at@[h]) < trips@.len()
                        && trips@[rep_at@[h] as int] == reps@[h],
                forall|h: int|
                    0 <= h < g && !(found && h == g - 1) ==> !feed.same_route(
                        #[trigger] reps@[h] as int,
                        t as int,
                    ),
                found ==> g > 0 && feed.same_route(reps@[g - 1] as int, t as int),
            decreases reps@.len() - g + if found { 0int } else { 1int },
        {
            // Trips of one route have the same key, so that few trips need
            // to be compared stop by stop.
            if bitfield_same(&keys[rep_at[g]], &keys[k]) && same_route(feed, reps[g], t) {
                found = true;
            }
            g += 1;
        }
        if found {
            group_of.push(g - 1);
        } else {
            reps.push(t);
            rep_at.push(k);
            group_of.push(reps.len() - 1);
        }
        proof {
            assert(group_of@.len() == next.len());
            assert forall|j: int| 0 <= j < group_of@.len() implies (#[trigger] group_of@[j])
                < reps@.len() by {
                if j < k {
                    assert(group_of@[j] == old_group_of[j]);
                }
            }
            assert forall|j: int| 0 <= j < group_of@.len() implies feed.same_route(
                next[j] as int,
                reps@[#[trigger] group_of@[j] as int] as int,
            ) by {
                if j < k {
                    assert(next[j] == done[j]);
                    assert(group_of@[j] == old_group_of[j]);
                    assert(feed.same_route(done[j] as int, old_reps[old_group_of[j] as int] as int));
                }
            }
            assert forall|h: int| 0 <= h < reps@.len() implies in_group(
                next,
                group_of@,
                h,
                #[trigger] reps@[h],
            ) by {
                if h < old_reps.len() {
                    assert(in_group(done, old_group_of, h, old_reps[h]));
                    let j = choose|j: int|
                        0 <= j < done.len() && #[trigger] done[j] == old_reps[h]
                            && old_group_of[j] == h;
                    assert(next[j] == reps@[h] && group_of@[j] == h);
                } else {
                    assert(next[k as int] == reps@[h] && group_of@[k as int] == h);
                }
            }
            assert forall|a: int, b: int| 0 <= a < b < reps@.len() implies !feed.same_route(
                reps@[a] as int,
                reps@[b] as int,
            ) by {
                if b < old_reps.len() {
                    assert(!feed.same_route(old_reps[a] as int, old_reps[b] as int));
                } else {
                    assert(!feed.same_route(old_reps[a] as int, t as int));
                }
            }
            // A group's first trip stands before its other trips, and the
            // first trip of an earlier group before that of a later one.
            assert forall|h: int| 0 <= h < old_reps.len() implies (#[trigger] old_reps[h]) < t by {
                assert(in_group(done, old_group_of, h, old_reps[h]));
                let j = choose|j: int|
                    0 <= j < done.len() && #[trigger] done[j] == old_reps[h] && old_group_of[j]
                        == h;
                assert(trips@[j] < trips@[k as int]);
            }
            assert forall|a: int, b: int| 0 <= a < b < reps@.len() implies reps@[a] < reps@[b] by {
                if b < old_reps.len() {
                    assert(old_reps[a] < old_reps[b]);
                } else {
                    assert(old_reps[a] < t);
                }
            }
            assert forall|j: int| 0 <= j < group_of@.len() implies reps@[
            #[trigger] group_of@[j] as int] <= next[j] by {
                if j < k {
                    assert(group_of@[j] == old_group_of[j]);
                    assert(old_reps[old_group_of[j] as int] <= done[j]);
                } else if found {
                    assert(old_reps[g - 1] < t);
                }
            }
            assert(is_grouping(*feed, next, group_of@, reps@));
        }
        k += 1;
    }
    assert(trips@.subrange(0, k as int) =~= trips@);
    (group_of, reps)
}

/// `slice::sort_unstable_by_key` with the first component as the key: the
/// same pairs, in order of their first components. Which of two pairs with
/// the same key comes first is left open.
#[verifier::external_body]
fn sort_by_time(pairs: &mut Vec<(Timestamp, usize)>)
    ensures
        final(pairs)@.to_multiset() == old(pairs)@.to_multiset(),
        forall|i: int, j: int| 0 <= i < j < final(pairs)@.len() ==> final(pairs)@[i].0 <= final(pairs)@[j].0,
{
    pairs.sort_unstable_by_key(|x| x.0);
}

/// How many of the listed trips belong to group `g`.
pub open spec fn count_in(group_of: Seq<usize>, g: int) -> nat
    decreases group_of.len(),
{
    if group_of.len() == 0 {
        0
    } else {
        count_in(group_of.drop_last(), g) + if group_of.last() == g {
            1nat
        } else {
            0nat
        }
    }
}

/// How many of the listed trips belong to a group before `g`.
pub open spec fn count_below(group_of: Seq<usize>, g: int) -> nat
    decreases group_of.len(),
{
    if group_of.len() == 0 {
        0
    } else {
        count_below(group_of.drop_last(), g) + if group_of.last() < g {
            1nat
        } else {
            0nat
        }
    }
}

proof fn lemma_count_step(group_of: Seq<usize>, g: int)
    ensures
        count_below(group_of, g + 1) == count_below(group_of, g) + count_in(group_of, g),
        count_below(group_of, g) <= group_of.len(),
        (forall|j: int| 0 <= j < group_of.len() ==> group_of[j] < g) ==> count_below(group_of, g)
            == group_of.len(),
        g <= 0 ==> count_below(group_of, g) == 0,
    decreases group_of.len(),
{
    if group_of.len() > 0 {
        lemma_count_step(group_of.drop_last(), g);
    }
}

/// When trip `t` arrives at its first stop.
pub open spec fn first_arrival(feed: Feed, t: int) -> Timestamp {
    feed.trips@[t].stop_times@[0].arrival_time
}

/// The trips of one group, each with the time at which it arrives at its
/// first stop.
fn collect_group(feed: &Feed, trips: &Vec<usize>, group_of: &Vec<usize>, g: usize) -> (pairs: Vec<
    (Timestamp, usize),
>)
    requires
        group_of@.len() == trips@.len(),
        forall|k: int|
            0 <= k < trips@.len() ==> (#[trigger] trips@[k]) < feed.trips@.len()
                && feed.trips@[trips@[k] as int].stop_times@.len() > 0,
        forall|k: int, l: int| 0 <= k < l < trips@.len() ==> trips@[k] < trips@[l],
    ensures
        forall|m: int|
            0 <= m < pairs@.len() ==> in_group(trips@, group_of@, g as int, (#[trigger] pairs@[m]).1),
        forall|m: int|
            0 <= m < pairs@.len() ==> (#[trigger] pairs@[m]).0 == first_arrival(
                *feed,
                pairs@[m].1 as int,
            ),
        forall|j: int|
            0 <= j < trips@.len() && group_of@[j] == g ==> pairs@.contains(
                (first_arrival(*feed, trips@[j] as int), #[trigger] trips@[j]),
            ),
        pairs@.no_duplicates(),
        pairs@.len() == count_in(group_of@, g as int),
{
    let mut pairs: Vec<(Timestamp, usize)> = Vec::new();
    let mut j: usize = 0;
    while j < trips.len()
        invariant
            j <= trips@.len(),
            group_of@.len() == trips@.len(),
            forall|k: int|
                0 <= k < trips@.len() ==> (#[trigger] trips@[k]) < feed.trips@.len()
                    && feed.trips@[trips@[k] as int].stop_times@.len() > 0,
            forall|k: int, l: int| 0 <= k < l < trips@.len() ==> trips@[k] < trips@[l],
            forall|m: int|
                0 <= m < pairs@.len() ==> in_group(
                    trips@,
                    group_of@,
                    g as int,
                    (#[trigger] pairs@[m]).1,
                ),
            forall|m: int|
                0 <= m < pairs@.len() ==> (#[trigger] pairs@[m]).0 == first_arrival(
                    *feed,
                    pairs@[m].1 as int,
                ),
            forall|m: int| 0 <= m < pairs@.len() && j < trips@.len() ==> (#[trigger] pairs@[m]).1 < trips@[j as int],
            forall|i: int|
                0 <= i < j && group_of@[i] == g ==> pairs@.contains(
                    (first_arrival(*feed, trips@[i] as int), #[trigger] trips@[i]),
                ),
            pairs@.no_duplicates(),
            pairs@.len() == count_in(group_of@.subrange(0, j as int), g as int),
        decreases trips@.len() - j,
    {
        proof {
            assert(group_of@.subrange(0, j + 1).drop_last() =~= group_of@.subrange(0, j as int));
        }
        if group_of[j] == g {
            let t = trips[j];
            let ghost before = pairs@;
            let pair = (feed.trips[t].stop_times[0].arrival_time, t);
            pairs.push(pair);
            proof {
                assert forall|i: int| 0 <= i < j + 1 && group_of@[i] == g implies pairs@.contains(
                    (first_arrival(*feed, trips@[i] as int), #[trigger] trips@[i]),
                ) by {
                    let wanted = (first_arrival(*feed, trips@[i] as int), trips@[i]);
                    if i < j {
                        let m = choose|m: int| 0 <= m < before.len() && before[m] == wanted;
                        assert(pairs@[m] == wanted);
                    } else {
                        assert(pairs@[before.len() as int] == wanted);
                    }
                }
                assert forall|a: int, b: int|
                    0 <= a < pairs@.len() && 0 <= b < pairs@.len() && a != b implies pairs@[a]
                    != pairs@[b] by {
                    if a == before.len() {
                        assert(before[b].1 < trips@[j as int]);
                    } else if b == before.len() {
                        assert(before[a].1 < trips@[j as int]);
                    }
                }
            }
        }
        proof {
            if j + 1 < trips@.len() {
                assert(trips@[j as int] < trips@[j + 1]);
            }
        }
        j += 1;
    }
    assert(group_of@.subrange(0, j as int) =~= group_of@);
    pairs
}

/// The label under which a trip's line is shown: the line's short name, else
/// its long name, else the name by which the trip refers to it.
pub open spec fn line_label(feed: Feed, t: int, label: Seq<char>) -> bool {
    let route_id = feed.trips@[t].route_id@;
    match find_line(feed, route_id, 0) {
        Some(l) => match feed.lines@[l].short_name {
            Some(name) => label == name@,
            None => match feed.lines@[l].long_name {
                Some(name) => label == name@,
                None => label == route_id,
            },
        },
        None => label == route_id,
    }
}

/// The first line from position `from` on that goes by the name `id`.
pub open spec fn find_line(feed: Feed, id: Seq<char>, from: int) -> Option<int>
    decreases feed.lines@.len() - from,
{
    if from < 0 || from >= feed.lines@.len() {
        None
    } else if feed.lines@[from].id@ == id {
        Some(from)
    } else {
        find_line(feed, id, from + 1)
    }
}

/// The colour of a trip's line, black where the feed does not have the line.
pub open spec fn line_colour(feed: Feed, t: int) -> crate::network::Colour {
    match find_line(feed, feed.trips@[t].route_id@, 0) {
        Some(l) => feed.lines@[l].colour,
        None => crate::network::Colour { r: 0, g: 0, b: 0 },
    }
}

/// The label and the colour of the line of a trip.
fn line_of(feed: &Feed, t: usize) -> (r: (String, crate::network::Colour))
    requires
        t < feed.trips@.len(),
    ensures
        line_label(*feed, t as int, r.0@),
        r.1 == line_colour(*feed, t as int),
{
    let route_id = &feed.trips[t].route_id;
    let mut l: usize = 0;
    while l < feed.lines.len()
        invariant
            t < feed.trips@.len(),
            *route_id == feed.trips@[t as int].route_id,
            l <= feed.lines@.len(),
            find_line(*feed, route_id@, 0) == find_line(*feed, route_id@, l as int),
        decreases feed.lines@.len() - l,
    {
        let line = &feed.lines[l];
        if line.id == *route_id {
            let label = match &line.short_name {
                Some(name) => name.clone(),
                None => match &line.long_name {
                    Some(name) => name.clone(),
                    None => route_id.clone(),
                },
            };
            return (label, line.colour);
        }
        l += 1;
    }
    (route_id.clone(), crate::network::Colour { r: 0, g: 0, b: 0 })
}

/// When a trip of the feed calls at its stop in place `i`.
pub open spec fn feed_time(feed: Feed, t: int, i: int) -> StopTime {
    StopTime {
        arrival_time: feed.trips@[t].stop_times@[i].arrival_time,
        departure_time: feed.trips@[t].stop_times@[i].departure_time,
    }
}

/// Row `k` of a route holds trip `t` of the feed: its name, its stops and
/// its times.
pub open spec fn trip_matches(
    route: Route,
    route_stops: Seq<StopIndex>,
    stop_times: Seq<StopTime>,
    feed: Feed,
    k: int,
    t: int,
) -> bool {
    &&& 0 <= t < feed.trips@.len()
    &&& feed.trips@[t].stop_times@.len() == route.num_stops
    &&& route.trip_ids@[k]@ == feed.trips@[t].id@
    &&& forall|i: int|
        0 <= i < route.num_stops ==> route_stops[route.route_stops_idx + i] == (
        #[trigger] feed.trips@[t].stop_times@[i]).stop
    &&& forall|i: int|
        0 <= i < route.num_stops ==> stop_times[route.spec_stop_times_index(k, i)]
            == #[trigger] feed_time(feed, t, i)
}

/// Route `r` holds the trips `origin` of the feed, in this order, which is
/// the order of their arrival at the first stop.
pub open spec fn route_matches(
    routes: Seq<Route>,
    route_stops: Seq<StopIndex>,
    stop_times: Seq<StopTime>,
    feed: Feed,
    r: int,
    origin: Seq<int>,
) -> bool {
    let route = routes[r];
    &&& origin.len() == route.num_trips
    &&& route.num_trips > 0
    &&& route.num_stops > 0
    &&& route.trip_ids@.len() == route.num_trips
    &&& route.stops_within(route_stops.len())
    &&& route.times_within(stop_times.len())
    &&& forall|k: int|
        0 <= k < origin.len() ==> trip_matches(
            route,
            route_stops,
            stop_times,
            feed,
            k,
            #[trigger] origin[k],
        )
    &&& forall|k: int, l: int|
        0 <= k < l < origin.len() ==> first_arrival(feed, origin[k]) <= first_arrival(
            feed,
            origin[l],
        )
    &&& line_label(feed, origin[0], route.line@)
    &&& route.colour == line_colour(feed, origin[0])
}

proof fn lemma_row(a: int, b: int, i: int, n: int)
    requires
        0 <= a < b,
        0 <= i <= n,
    ensures
        0 <= a * n,
        a * n + i <= b * n,
        (a + 1) * n == a * n + n,
{
    assert(0 <= a * n) by (nonlinear_arith)
        requires
            0 <= a,
            0 <= n,
    ;
    assert((a + 1) * n == a * n + n) by (nonlinear_arith);
    assert((a + 1) * n <= b * n) by (nonlinear_arith)
        requires
            a + 1 <= b,
            0 <= n,
    ;
}

/// The trips that a list of pairs names, in the list's order.
pub open spec fn named_trips(members: Seq<(Timestamp, usize)>) -> Seq<int> {
    Seq::new(members.len(), |m: int| members[m].1 as int)
}

/// Appends one route to the flat arrays: its stops, then the stop times of
/// its trips in the order given.
#[verifier::rlimit(30)]
fn append_route(
    feed: &Feed,
    members: &Vec<(Timestamp, usize)>,
    routes: &mut Vec<Route>,
    route_stops: &mut Vec<StopIndex>,
    stop_times: &mut Vec<StopTime>,
)
    requires
        feed.wf(),
        feed.stops@.len() <= u32::MAX,
        0 < members@.len() <= u32::MAX,
        forall|m: int|
            0 <= m < members@.len() ==> (#[trigger] members@[m]).1 < feed.trips@.len()
                && feed.trips@[members@[m].1 as int].stop_times@.len() > 0 && feed.trip_stops(
                members@[m].1 as int,
            ) == feed.trip_stops(members@[0].1 as int) && members@[m].0 == first_arrival(
                *feed,
                members@[m].1 as int,
            ),
        forall|k: int, l: int| 0 <= k < l < members@.len() ==> members@[k].0 <= members@[l].0,
    ensures
        final(routes)@.len() == old(routes)@.len() + 1,
        final(routes)@.subrange(0, old(routes)@.len() as int) == old(routes)@,
        final(route_stops)@.len() >= old(route_stops)@.len(),
        final(route_stops)@.subrange(0, old(route_stops)@.len() as int) == old(route_stops)@,
        final(stop_times)@.len() >= old(stop_times)@.len(),
        final(stop_times)@.subrange(0, old(stop_times)@.len() as int) == old(stop_times)@,
        route_matches(
            final(routes)@,
            final(route_stops)@,
            final(stop_times)@,
            *feed,
            old(routes)@.len() as int,
            named_trips(members@),
        ),
        final(routes)@[old(routes)@.len() as int].num_trips == members@.len(),
{
    let first = members[0].1;
    let first_trip = &feed.trips[first];
    let n = first_trip.stop_times.len();
    let route_stops_idx = route_stops.len();
    let stop_times_idx = stop_times.len();
    let ghost old_route_stops = route_stops@;
    let ghost old_stop_times = stop_times@;
    assert(feed.trip_stops(first as int).len() == n);
    // All trips of a route call at the same stops: the first one gives them.
    let mut i: usize = 0;
    while i < n
        invariant
            feed.wf(),
            feed.stops@.len() <= u32::MAX,
            first < feed.trips@.len(),
            *first_trip == feed.trips@[first as int],
            n == first_trip.stop_times@.len(),
            i <= n,
            route_stops@.len() == route_stops_idx + i,
            route_stops_idx == old_route_stops.len(),
            route_stops@.subrange(0, route_stops_idx as int) == old_route_stops,
            forall|j: int|
                0 <= j < i ==> route_stops@[route_stops_idx + j] == (
                #[trigger] first_trip.stop_times@[j]).stop,
        decreases n - i,
    {
        let stop = first_trip.stop_times[i].stop;
        assert(feed.trips@[first as int].stop_times@[i as int].stop < feed.stops@.len());
        let ghost before = route_stops@;
        route_stops.push(stop as StopIndex);
        proof {
            assert(route_stops@.subrange(0, route_stops_idx as int) =~= before.subrange(
                0,
                route_stops_idx as int,
            ));
            assert forall|j: int| 0 <= j < i + 1 implies route_stops@[route_stops_idx + j] == (
            #[trigger] first_trip.stop_times@[j]).stop by {
                if j < i {
                    assert(route_stops@[route_stops_idx + j] == before[route_stops_idx + j]);
                }
            }
        }
        i += 1;
    }
    let num_trips = members.len();
    let mut trip_ids: Vec<String> = Vec::new();
    let mut m: usize = 0;
    let ghost mut row: int = 0;
    while m < num_trips
        invariant
            feed.wf(),
            n > 0,
            num_trips == members@.len(),
            m <= num_trips,
            row == m * n,
            forall|k: int|
                0 <= k < members@.len() ==> (#[trigger] members@[k]).1 < feed.trips@.len()
                    && feed.trip_stops(members@[k].1 as int).len() == n,
            trip_ids@.len() == m,
            forall|k: int|
                0 <= k < m ==> (#[trigger] trip_ids@[k])@ == feed.trips@[members@[k].1 as int].id@,
            stop_times_idx == old_stop_times.len(),
            stop_times@.len() == stop_times_idx + row,
            stop_times@.subrange(0, stop_times_idx as int) == old_stop_times,
            forall|k: int, j: int|
                0 <= k < m && 0 <= j < n ==> stop_times@[stop_times_idx + k * n + j]
                    == #[trigger] feed_time(*feed, members@[k].1 as int, j),
        decreases num_trips - m,
    {
        let t = members[m].1;
        let trip = &feed.trips[t];
        assert(feed.trip_stops(t as int).len() == n);
        trip_ids.push(trip.id.clone());
        let mut j: usize = 0;
        while j < n
            invariant
                t < feed.trips@.len(),
                *trip == feed.trips@[t as int],
                t == members@[m as int].1,
                m < members@.len(),
                trip.stop_times@.len() == n,
                j <= n,
                row == m * n,
                stop_times_idx == old_stop_times.len(),
                stop_times@.len() == stop_times_idx + row + j,
                stop_times@.subrange(0, stop_times_idx as int) == old_stop_times,
                forall|k: int, j2: int|
                    0 <= k < m && 0 <= j2 < n ==> stop_times@[stop_times_idx + k * n + j2]
                        == #[trigger] feed_time(*feed, members@[k].1 as int, j2),
                forall|j2: int|
                    0 <= j2 < j ==> stop_times@[stop_times_idx + row + j2] == #[trigger] feed_time(
                        *feed,
                        t as int,
                        j2,
                    ),
            decreases n - j,
        {
            let call = &trip.stop_times[j];
            let ghost before = stop_times@;
            stop_times.push(
                StopTime { arrival_time: call.arrival_time, departure_time: call.departure_time },
            );
            proof {
                assert(stop_times@.subrange(0, stop_times_idx as int) =~= before.subrange(
                    0,
                    stop_times_idx as int,
                ));
                assert forall|k: int, j2: int| 0 <= k < m && 0 <= j2 < n implies stop_times@[stop_times_idx
                    + k * n + j2] == #[trigger] feed_time(*feed, members@[k].1 as int, j2) by {
                    lemma_row(k, m as int, j2 + 1, n as int);
                    assert(stop_times@[stop_times_idx + k * n + j2] == before[stop_times_idx + k
                        * n + j2]);
                }
                assert forall|j2: int| 0 <= j2 < j + 1 implies stop_times@[stop_times_idx + row
                    + j2] == #[trigger] feed_time(*feed, t as int, j2) by {
                    if j2 < j {
                        assert(stop_times@[stop_times_idx + row + j2] == before[stop_times_idx
                            + row + j2]);
                    }
                }
            }
            j += 1;
        }
        proof {
            lemma_row(m as int, m + 1, n as int, n as int);
            assert forall|k: int, j2: int| 0 <= k < m + 1 && 0 <= j2 < n implies stop_times@[stop_times_idx
                + k * n + j2] == #[trigger] feed_time(*feed, members@[k].1 as int, j2) by {
                if k == m {
                    assert(stop_times@[stop_times_idx + row + j2] == feed_time(
                        *feed,
                        t as int,
                        j2,
                    ));
                }
            }
            row = row + n;
        }
        m += 1;
    }
    let (line, colour) = line_of(feed, first);
    let route = Route {
        line,
        num_stops: n as StopIndex,
        num_trips: num_trips as TripOrder,
        route_stops_idx,
        stop_times_idx,
        trip_ids,
        colour,
    };
    let ghost old_routes = routes@;
    routes.push(route);
    proof {
        let r = old_routes.len() as int;
        let origin = named_trips(members@);
        let built = routes@[r];
        assert(routes@.subrange(0, r) =~= old_routes);
        assert forall|k: int| 0 <= k < origin.len() implies trip_matches(
            built,
            route_stops@,
            stop_times@,
            *feed,
            k,
            #[trigger] origin[k],
        ) by {
            let t = origin[k];
            assert(members@[k].1 == t);
            assert(feed.trip_stops(t).len() == n);
            assert forall|i: int| 0 <= i < built.num_stops implies route_stops@[built.route_stops_idx
                + i] == (#[trigger] feed.trips@[t].stop_times@[i]).stop by {
                assert(feed.trip_stops(t)[i] == feed.trip_stops(first as int)[i]);
                assert(route_stops@[route_stops_idx + i] == first_trip.stop_times@[i].stop);
            }
            assert forall|i: int| 0 <= i < built.num_stops implies stop_times@[built.spec_stop_times_index(
                k,
                i,
            )] == #[trigger] feed_time(*feed, t, i) by {
                assert(stop_times@[stop_times_idx + k * n + i] == feed_time(
                    *feed,
                    members@[k].1 as int,
                    i,
                ));
            }
        }
        assert forall|k: int, l: int| 0 <= k < l < origin.len() implies first_arrival(
            *feed,
            origin[k],
        ) <= first_arrival(*feed, origin[l]) by {
            assert(members@[k].0 <= members@[l].0);
        }
    }
}

/// The routes built so far hold the trips of the first groups: route `r`
/// holds the trips `origin[r]`, which are the trips of group `r`.
pub open spec fn routes_built(
    feed: Feed,
    trips: Seq<usize>,
    group_of: Seq<usize>,
    routes: Seq<Route>,
    route_stops: Seq<StopIndex>,
    stop_times: Seq<StopTime>,
    origin: Seq<Seq<int>>,
) -> bool {
    &&& origin.len() == routes.len()
    &&& forall|r: int|
        0 <= r < routes.len() ==> #[trigger] route_matches(
            routes,
            route_stops,
            stop_times,
            feed,
            r,
            origin[r],
        )
    &&& forall|r: int, k: int|
        0 <= r < origin.len() && 0 <= k < origin[r].len() ==> 0 <= (#[trigger] origin[r][k])
            <= usize::MAX && in_group(trips, group_of, r, origin[r][k] as usize)
    &&& forall|r: int, j: int|
        0 <= r < origin.len() && 0 <= j < trips.len() && group_of[j] == r
            ==> #[trigger] origin[r].contains(trips[j] as int)
    &&& forall|r: int| 0 <= r < origin.len() ==> (#[trigger] origin[r]).no_duplicates()
}

/// What is said of a route stays true when the flat arrays grow.
proof fn lemma_route_matches_extends(
    routes: Seq<Route>,
    route_stops: Seq<StopIndex>,
    stop_times: Seq<StopTime>,
    routes2: Seq<Route>,
    route_stops2: Seq<StopIndex>,
    stop_times2: Seq<StopTime>,
    feed: Feed,
    r: int,
    origin: Seq<int>,
)
    requires
        0 <= r < routes.len() <= routes2.len(),
        route_stops.len() <= route_stops2.len(),
        stop_times.len() <= stop_times2.len(),
        routes2.subrange(0, routes.len() as int) == routes,
        route_stops2.subrange(0, route_stops.len() as int) == route_stops,
        stop_times2.subrange(0, stop_times.len() as int) == stop_times,
        route_matches(routes, route_stops, stop_times, feed, r, origin),
    ensures
        route_matches(routes2, route_stops2, stop_times2, feed, r, origin),
{
    let route = routes[r];
    assert(routes2[r] == routes2.subrange(0, routes.len() as int)[r]);
    assert forall|k: int| 0 <= k < origin.len() implies trip_matches(
        route,
        route_stops2,
        stop_times2,
        feed,
        k,
        #[trigger] origin[k],
    ) by {
        let t = origin[k];
        assert(trip_matches(route, route_stops, stop_times, feed, k, t));
        assert forall|i: int| 0 <= i < route.num_stops implies route_stops2[route.route_stops_idx
            + i] == (#[trigger] feed.trips@[t].stop_times@[i]).stop by {
            let at = route.route_stops_idx + i;
            assert(route_stops2[at] == route_stops2.subrange(0, route_stops.len() as int)[at]);
        }
        assert forall|i: int| 0 <= i < route.num_stops implies stop_times2[route.spec_stop_times_index(
            k,
            i,
        )] == #[trigger] feed_time(feed, t, i) by {
            route.lemma_index_within(k, i);
            let at = route.spec_stop_times_index(k, i);
            assert(stop_times2[at] == stop_times2.subrange(0, stop_times.len() as int)[at]);
            assert(stop_times[at] == feed_time(feed, t, i));
        }
    }
}

/// One route for each group: the group's trips in the order of their arrival
/// at the first stop.
#[verifier::rlimit(30)]
fn build_routes(feed: &Feed, trips: &Vec<usize>, group_of: &Vec<usize>, reps: &Vec<usize>) -> (r: (
    Vec<Route>,
    Vec<StopIndex>,
    Vec<StopTime>,
    TripOrder,
    Ghost<Seq<Seq<int>>>,
))
    requires
        feed.wf(),
        feed.stops@.len() <= u32::MAX,
        trips@.len() <= u32::MAX,
        is_grouping(*feed, trips@, group_of@, reps@),
        forall|k: int|
            0 <= k < trips@.len() ==> (#[trigger] trips@[k]) < feed.trips@.len()
                && feed.trips@[trips@[k] as int].stop_times@.len() > 0,
        forall|k: int, l: int| 0 <= k < l < trips@.len() ==> trips@[k] < trips@[l],
    ensures
        r.0@.len() == reps@.len(),
        routes_built(*feed, trips@, group_of@, r.0@, r.1@, r.2@, r.4@),
        r.3 == trips_before(r.0@, r.0@.len() as int),
        r.3 == trips@.len(),
{
    let mut routes: Vec<Route> = Vec::new();
    let mut route_stops: Vec<StopIndex> = Vec::new();
    let mut stop_times: Vec<StopTime> = Vec::new();
    let mut num_trips: TripOrder = 0;
    let ghost mut origin: Seq<Seq<int>> = Seq::empty();
    let mut g: usize = 0;
    proof {
        lemma_count_step(group_of@, 0);
    }
    while g < reps.len()
        invariant
            feed.wf(),
            feed.stops@.len() <= u32::MAX,
            trips@.len() <= u32::MAX,
            is_grouping(*feed, trips@, group_of@, reps@),
            forall|k: int|
                0 <= k < trips@.len() ==> (#[trigger] trips@[k]) < feed.trips@.len()
                    && feed.trips@[trips@[k] as int].stop_times@.len() > 0,
            forall|k: int, l: int| 0 <= k < l < trips@.len() ==> trips@[k] < trips@[l],
            g <= reps@.len(),
            routes@.len() == g,
            routes_built(*feed, trips@, group_of@, routes@, route_stops@, stop_times@, origin),
            num_trips == count_below(group_of@, g as int),
            num_trips == trips_before(routes@, g as int),
        decreases reps@.len() - g,
    {
        let mut members = collect_group(feed, trips, group_of, g);
        let ghost unsorted = members@;
        sort_by_time(&mut members);
        let ghost old_routes = routes@;
        let ghost old_route_stops = route_stops@;
        let ghost old_stop_times = stop_times@;
        proof {
            crate::network::lemma_same_elements(unsorted, members@);
            lemma_count_step(group_of@, g as int);
            lemma_count_step(group_of@, g + 1);
            assert(num_trips + members@.len() <= trips@.len());
            // The group's own representative is among its members.
            assert(in_group(trips@, group_of@, g as int, reps@[g as int]));
            let j0 = choose|j: int|
                0 <= j < trips@.len() && #[trigger] trips@[j] == reps@[g as int] && group_of@[j]
                    == g;
            assert(unsorted.contains((first_arrival(*feed, trips@[j0] as int), trips@[j0])));
            assert(members@.len() > 0);
            assert forall|m: int| 0 <= m < members@.len() implies in_group(
                trips@,
                group_of@,
                g as int,
                (#[trigger] members@[m]).1,
            ) && members@[m].0 == first_arrival(*feed, members@[m].1 as int) by {
                assert(members@.contains(members@[m]));
                assert(unsorted.contains(members@[m]));
                let m0 = choose|m0: int| 0 <= m0 < unsorted.len() && unsorted[m0] == members@[m];
                assert(in_group(trips@, group_of@, g as int, unsorted[m0].1));
            }
            assert forall|m: int| 0 <= m < members@.len() implies (#[trigger] members@[m]).1
                < feed.trips@.len() && feed.trips@[members@[m].1 as int].stop_times@.len() > 0
                && feed.same_route(members@[m].1 as int, reps@[g as int] as int) by {
                let t = members@[m].1;
                assert(in_group(trips@, group_of@, g as int, t));
                let j = choose|j: int|
                    0 <= j < trips@.len() && #[trigger] trips@[j] == t && group_of@[j] == g;
                assert(feed.same_route(trips@[j] as int, reps@[group_of@[j] as int] as int));
            }
        }
        append_route(feed, &members, &mut routes, &mut route_stops, &mut stop_times);
        proof {
            let added = named_trips(members@);
            let new_origin = origin.push(added);
            assert forall|r: int| 0 <= r < routes@.len() implies #[trigger] route_matches(
                routes@,
                route_stops@,
                stop_times@,
                *feed,
                r,
                new_origin[r],
            ) by {
                if r < g {
                    assert(route_matches(
                        old_routes,
                        old_route_stops,
                        old_stop_times,
                        *feed,
                        r,
                        origin[r],
                    ));
                    lemma_route_matches_extends(
                        old_routes,
                        old_route_stops,
                        old_stop_times,
                        routes@,
                        route_stops@,
                        stop_times@,
                        *feed,
                        r,
                        origin[r],
                    );
                }
            }
            assert forall|r: int, k: int|
                0 <= r < new_origin.len() && 0 <= k < new_origin[r].len() implies 0 <= (
            #[trigger] new_origin[r][k]) <= usize::MAX && in_group(
                trips@,
                group_of@,
                r,
                new_origin[r][k] as usize,
            ) by {
                if r < g {
                    assert(new_origin[r][k] == origin[r][k]);
                } else {
                    assert(new_origin[r][k] == members@[k].1);
                }
            }
            assert forall|r: int, j: int|
                0 <= r < new_origin.len() && 0 <= j < trips@.len() && group_of@[j]
                    == r implies #[trigger] new_origin[r].contains(trips@[j] as int) by {
                if r < g {
                    assert(origin[r].contains(trips@[j] as int));
                } else {
                    let wanted = (first_arrival(*feed, trips@[j] as int), trips@[j]);
                    assert(unsorted.contains(wanted));
                    assert(members@.contains(wanted));
                    let m = choose|m: int| 0 <= m < members@.len() && members@[m] == wanted;
                    assert(added[m] == trips@[j] as int);
                }
            }
            assert forall|r: int| 0 <= r < new_origin.len() implies (
            #[trigger] new_origin[r]).no_duplicates() by {
                if r == g {
                    assert forall|a: int, b: int|
                        0 <= a < added.len() && 0 <= b < added.len() && a != b implies added[a]
                        != added[b] by {
                        if added[a] == added[b] {
                            assert(members@[a].1 == members@[b].1);
                            assert(members@[a] == members@[b]);
                        }
                    }
                } else {
                    assert(new_origin[r] == origin[r]);
                }
            }
            origin = new_origin;
            assert(num_trips + members@.len() <= trips@.len());
            assert forall|i: int| 0 <= i < g implies old_routes[i].num_trips
                == routes@[i].num_trips by {
                assert(routes@[i] == routes@.subrange(0, g as int)[i]);
            }
            crate::network::lemma_trips_before_prefix(old_routes, routes@, g as int);
        }
        num_trips = num_trips + members.len() as TripOrder;
        g += 1;
    }
    proof {
        lemma_count_step(group_of@, reps@.len() as int);
    }
    (routes, route_stops, stop_times, num_trips, Ghost(origin))
}

proof fn lemma_trips_at_least_routes(routes: Seq<Route>, r: int)
    requires
        0 <= r <= routes.len(),
        forall|i: int| 0 <= i < routes.len() ==> (#[trigger] routes[i]).num_trips > 0,
    ensures
        trips_before(routes, r) >= r,
    decreases r,
{
    if r > 0 {
        lemma_trips_at_least_routes(routes, r - 1);
    }
}

/// The stop at which route `r` calls in place `i`, read from the flat arrays.
pub open spec fn stop_in(routes: Seq<Route>, route_stops: Seq<StopIndex>, r: int, i: int) -> StopIndex {
    route_stops[routes[r].route_stops_idx + i]
}

/// Route `r` calls at stop `s`.
pub open spec fn calls_at(routes: Seq<Route>, route_stops: Seq<StopIndex>, r: int, s: int) -> bool {
    exists|i: int| 0 <= i < routes[r].num_stops && #[trigger] stop_in(routes, route_stops, r, i) == s
}

/// Call `(r1, i1)` comes before call `(r, i)` when the calls are taken route
/// by route.
pub open spec fn call_before(r1: int, i1: int, r: int, i: int) -> bool {
    r1 < r || (r1 == r && i1 < i)
}

/// For each stop, the routes that call at it: once for each call, in the
/// order of the routes.
fn routes_by_stop(routes: &Vec<Route>, route_stops: &Vec<StopIndex>, num_stops: usize) -> (map: Vec<
    Vec<RouteIndex>,
>)
    requires
        routes@.len() <= u32::MAX,
        route_stops@.len() <= usize::MAX,
        forall|r: int|
            0 <= r < routes@.len() ==> (#[trigger] routes@[r]).stops_within(route_stops@.len()),
        forall|r: int, i: int|
            0 <= r < routes@.len() && 0 <= i < routes@[r].num_stops ==> (#[trigger] stop_in(
                routes@,
                route_stops@,
                r,
                i,
            )) < num_stops,
    ensures
        map@.len() == num_stops,
        forall|s: int, k: int|
            0 <= s < map@.len() && 0 <= k < map@[s]@.len() ==> (#[trigger] map@[s]@[k])
                < routes@.len() && calls_at(routes@, route_stops@, map@[s]@[k] as int, s),
        forall|r: int, i: int|
            0 <= r < routes@.len() && 0 <= i < routes@[r].num_stops ==> map@[(#[trigger] stop_in(
                routes@,
                route_stops@,
                r,
                i,
            )) as int]@.contains(r as RouteIndex),
        forall|s: int, k: int, l: int|
            0 <= s < map@.len() && 0 <= k < l < map@[s]@.len() ==> #[trigger] map@[s]@[k]
                <= #[trigger] map@[s]@[l],
{
    let mut map: Vec<Vec<RouteIndex>> = Vec::new();
    let mut s: usize = 0;
    while s < num_stops
        invariant
            s <= num_stops,
            map@.len() == s,
            forall|j: int| 0 <= j < s ==> (#[trigger] map@[j])@.len() == 0,
        decreases num_stops - s,
    {
        map.push(Vec::new());
        s += 1;
    }
    let mut r: usize = 0;
    while r < routes.len()
        invariant
            routes@.len() <= u32::MAX,
            route_stops@.len() <= usize::MAX,
            r <= routes@.len(),
            map@.len() == num_stops,
            forall|r: int|
                0 <= r < routes@.len() ==> (#[trigger] routes@[r]).stops_within(
                    route_stops@.len(),
                ),
            forall|r: int, i: int|
                0 <= r < routes@.len() && 0 <= i < routes@[r].num_stops ==> (#[trigger] stop_in(
                    routes@,
                    route_stops@,
                    r,
                    i,
                )) < num_stops,
            forall|s: int, k: int|
                0 <= s < map@.len() && 0 <= k < map@[s]@.len() ==> (#[trigger] map@[s]@[k]) < r
                    && calls_at(routes@, route_stops@, map@[s]@[k] as int, s),
            forall|s: int, k: int, l: int|
                0 <= s < map@.len() && 0 <= k < l < map@[s]@.len() ==> #[trigger] map@[s]@[k]
                    <= #[trigger] map@[s]@[l],
            forall|r1: int, i1: int|
                0 <= r1 < r && 0 <= i1 < routes@[r1].num_stops ==> map@[(#[trigger] stop_in(
                    routes@,
                    route_stops@,
                    r1,
                    i1,
                )) as int]@.contains(r1 as RouteIndex),
        decreases routes@.len() - r,
    {
        let route = &routes[r];
        let n = route.num_stops as usize;
        let base = route.route_stops_idx;
        let mut i: usize = 0;
        while i < n
            invariant
                routes@.len() <= u32::MAX,
                route_stops@.len() <= usize::MAX,
                r < routes@.len(),
                *route == routes@[r as int],
                n == route.num_stops,
                base == route.route_stops_idx,
                route.stops_within(route_stops@.len()),
                i <= n,
                map@.len() == num_stops,
                forall|r: int, i: int|
                    0 <= r < routes@.len() && 0 <= i < routes@[r].num_stops ==> (
                    #[trigger] stop_in(routes@, route_stops@, r, i)) < num_stops,
                forall|s: int, k: int|
                    0 <= s < map@.len() && 0 <= k < map@[s]@.len() ==> (#[trigger] map@[s]@[k])
                        <= r && calls_at(routes@, route_stops@, map@[s]@[k] as int, s),
                forall|s: int, k: int, l: int|
                    0 <= s < map@.len() && 0 <= k < l < map@[s]@.len() ==> #[trigger] map@[s]@[k]
                        <= #[trigger] map@[s]@[l],
                forall|r1: int, i1: int|
                    0 <= r1 <= r && 0 <= i1 < routes@[r1].num_stops && call_before(
                        r1,
                        i1,
                        r as int,
                        i as int,
                    ) ==> map@[(#[trigger] stop_in(routes@, route_stops@, r1, i1)) as int]@.contains(
                        r1 as RouteIndex,
                    ),
            decreases n - i,
        {
            let stop = route_stops[base + i] as usize;
            assert(stop == stop_in(routes@, route_stops@, r as int, i as int));
            let ghost before = map@;
            map[stop].push(r as RouteIndex);
            proof {
                assert forall|s: int, k: int|
                    0 <= s < map@.len() && 0 <= k < map@[s]@.len() implies (#[trigger] map@[s]@[k])
                    <= r && calls_at(routes@, route_stops@, map@[s]@[k] as int, s) by {
                    if s == stop {
                        if k < before[s]@.len() {
                            assert(map@[s]@[k] == before[s]@[k]);
                        }
                    } else {
                        assert(map@[s] == before[s]);
                    }
                }
                assert forall|s: int, k: int, l: int|
                    0 <= s < map@.len() && 0 <= k < l < map@[s]@.len() implies #[trigger] map@[s]@[k]
                    <= #[trigger] map@[s]@[l] by {
                    if s == stop {
                        if l < before[s]@.len() {
                            assert(map@[s]@[k] == before[s]@[k]);
                            assert(map@[s]@[l] == before[s]@[l]);
                        } else {
                            assert(map@[s]@[k] == before[s]@[k]);
                        }
                    } else {
                        assert(map@[s] == before[s]);
                    }
                }
                assert forall|r1: int, i1: int|
                    0 <= r1 <= r && 0 <= i1 < routes@[r1].num_stops && call_before(
                        r1,
                        i1,
                        r as int,
                        i + 1,
                    ) implies map@[(#[trigger] stop_in(routes@, route_stops@, r1, i1)) as int]@.contains(
                    r1 as RouteIndex,
                ) by {
                    let s1 = stop_in(routes@, route_stops@, r1, i1) as int;
                    if call_before(r1, i1, r as int, i as int) {
                        assert(before[s1]@.contains(r1 as RouteIndex));
                        let k = choose|k: int|
                            0 <= k < before[s1]@.len() && before[s1]@[k] == r1 as RouteIndex;
                        if s1 == stop {
                            assert(map@[s1]@[k] == r1 as RouteIndex);
                        } else {
                            assert(map@[s1] == before[s1]);
                        }
                    } else {
                        assert(r1 == r && i1 == i);
                        assert(map@[s1]@[before[s1]@.len() as int] == r as RouteIndex);
                    }
                }
            }
            i += 1;
        }
        r += 1;
    }
    map
}

/// The stops of the network for the stops of the feed, and the routes of
/// each stop in one flat array.
fn build_stops(feed: &Feed, map: &Vec<Vec<RouteIndex>>) -> (r: (Vec<Stop>, Vec<RouteIndex>))
    requires
        map@.len() == feed.stops@.len(),
    ensures
        r.0@.len() == feed.stops@.len(),
        forall|s: int|
            0 <= s < r.0@.len() ==> (#[trigger] r.0@[s]).id@ == feed.stops@[s].id@
                && crate::utils::is_prefix_before(
                feed.stops@[s].name@,
                " Railway Station"@,
                r.0@[s].name@,
            ) && r.0@[s].num_routes == map@[s]@.len() && r.0@[s].routes_idx + r.0@[s].num_routes
                <= r.1@.len(),
        forall|s: int, k: int|
            0 <= s < r.0@.len() && 0 <= k < map@[s]@.len() ==> r.1@[r.0@[s].routes_idx + k]
                == #[trigger] map@[s]@[k],
{
    let mut stops: Vec<Stop> = Vec::new();
    let mut stop_routes: Vec<RouteIndex> = Vec::new();
    let mut s: usize = 0;
    while s < feed.stops.len()
        invariant
            map@.len() == feed.stops@.len(),
            s <= feed.stops@.len(),
            stops@.len() == s,
            forall|j: int|
                0 <= j < s ==> (#[trigger] stops@[j]).id@ == feed.stops@[j].id@
                    && crate::utils::is_prefix_before(
                    feed.stops@[j].name@,
                    " Railway Station"@,
                    stops@[j].name@,
                ) && stops@[j].num_routes == map@[j]@.len() && stops@[j].routes_idx
                    + stops@[j].num_routes <= stop_routes@.len(),
            forall|j: int, k: int|
                0 <= j < s && 0 <= k < map@[j]@.len() ==> stop_routes@[stops@[j].routes_idx + k]
                    == #[trigger] map@[j]@[k],
        decreases feed.stops@.len() - s,
    {
        let routes_idx = stop_routes.len();
        let listed = &map[s];
        let mut k: usize = 0;
        while k < listed.len()
            invariant
                *listed == map@[s as int],
                k <= listed@.len(),
                stops@.len() == s,
                stop_routes@.len() == routes_idx + k,
                forall|j: int|
                    0 <= j < s ==> (#[trigger] stops@[j]).routes_idx + stops@[j].num_routes
                        <= routes_idx,
                forall|j: int, l: int|
                    0 <= j < s && 0 <= l < map@[j]@.len() ==> stop_routes@[stops@[j].routes_idx
                        + l] == #[trigger] map@[j]@[l],
                forall|l: int| 0 <= l < k ==> stop_routes@[routes_idx + l] == #[trigger] listed@[l],
                forall|j: int| 0 <= j < s ==> (#[trigger] stops@[j]).num_routes == map@[j]@.len(),
            decreases listed@.len() - k,
        {
            let ghost before = stop_routes@;
            stop_routes.push(listed[k]);
            proof {
                assert forall|j: int, l: int|
                    0 <= j < s && 0 <= l < map@[j]@.len() implies stop_routes@[stops@[j].routes_idx
                    + l] == #[trigger] map@[j]@[l] by {
                    assert(stops@[j].routes_idx + stops@[j].num_routes <= routes_idx);
                    assert(stop_routes@[stops@[j].routes_idx + l] == before[stops@[j].routes_idx
                        + l]);
                }
                assert forall|l: int| 0 <= l < k + 1 implies stop_routes@[routes_idx + l]
                    == #[trigger] listed@[l] by {
                    if l < k {
                        assert(stop_routes@[routes_idx + l] == before[routes_idx + l]);
                    }
                }
            }
            k += 1;
        }
        let source = &feed.stops[s];
        let name = crate::utils::get_short_stop_name(source.name.as_str());
        let ghost before = stops@;
        stops.push(
            Stop { name: name.to_owned(), id: source.id.clone(), routes_idx, num_routes: k },
        );
        proof {
            assert forall|j: int| 0 <= j < s + 1 implies (#[trigger] stops@[j]).id@
                == feed.stops@[j].id@ && crate::utils::is_prefix_before(
                feed.stops@[j].name@,
                " Railway Station"@,
                stops@[j].name@,
            ) && stops@[j].num_routes == map@[j]@.len() && stops@[j].routes_idx
                + stops@[j].num_routes <= stop_routes@.len() by {
                if j < s {
                    assert(stops@[j] == before[j]);
                }
            }
            assert forall|j: int, l: int|
                0 <= j < s + 1 && 0 <= l < map@[j]@.len() implies stop_routes@[stops@[j].routes_idx
                + l] == #[trigger] map@[j]@[l] by {
                if j < s {
                    assert(stops@[j] == before[j]);
                }
            }
        }
        s += 1;
    }
    (stops, stop_routes)
}

/// The network holds the trips of the feed that run on the day `date`, each
/// once: route `r` holds the trips `origin[r]`, which are all the trips of one
/// line, direction and sequence of stops.
pub open spec fn built_from(n: Network, feed: Feed, date: ServiceDate, origin: Seq<Seq<int>>) -> bool {
    &&& origin.len() == n.routes@.len()
    &&& forall|r: int|
        0 <= r < n.routes@.len() ==> #[trigger] route_matches(
            n.routes@,
            n.route_stops@,
            n.stop_times@,
            feed,
            r,
            origin[r],
        )
    &&& forall|r: int, k: int|
        0 <= r < origin.len() && 0 <= k < origin[r].len() ==> feed.retained(
            #[trigger] origin[r][k],
            date,
        ) && feed.same_route(origin[r][0], origin[r][k])
    &&& forall|r: int, k: int, r2: int, k2: int|
        0 <= r < origin.len() && 0 <= k < origin[r].len() && 0 <= r2 < origin.len() && 0 <= k2
            < origin[r2].len() && #[trigger] origin[r][k] == #[trigger] origin[r2][k2] ==> r == r2
            && k == k2
    &&& forall|t: int|
        feed.retained(t, date) ==> exists|r: int|
            0 <= r < origin.len() && #[trigger] origin[r].contains(t)
    &&& forall|r: int, r2: int|
        0 <= r < r2 < origin.len() ==> !feed.same_route(
            (#[trigger] origin[r])[0],
            (#[trigger] origin[r2])[0],
        )
    &&& forall|r: int, r2: int|
        0 <= r < r2 < origin.len() ==> #[trigger] begins_before(origin[r], origin[r2])
}

/// The routes come in the order in which the feed first has a trip of
/// theirs: some trip of `a` stands in the feed before every trip of `b`.
pub open spec fn begins_before(a: Seq<int>, b: Seq<int>) -> bool {
    exists|k: int| 0 <= k < a.len() && forall|l: int| 0 <= l < b.len() ==> #[trigger] a[k] < #[trigger] b[l]
}

/// The stops of the network are the stops of the feed under their short
/// names, in the feed's order.
pub open spec fn stops_from(n: Network, feed: Feed) -> bool {
    &&& n.stops@.len() == feed.stops@.len()
    &&& forall|s: int|
        0 <= s < n.stops@.len() ==> (#[trigger] n.stops@[s]).id@ == feed.stops@[s].id@
            && crate::utils::is_prefix_before(
            feed.stops@[s].name@,
            " Railway Station"@,
            n.stops@[s].name@,
        )
}

/// A trip of route `r` goes into the network and belongs to the route of
/// the group's representative.
proof fn lemma_member(
    feed: Feed,
    date: ServiceDate,
    trips: Seq<usize>,
    group_of: Seq<usize>,
    reps: Seq<usize>,
    origin: Seq<Seq<int>>,
    r: int,
    k: int,
)
    requires
        is_retained_list(feed, date, trips),
        is_grouping(feed, trips, group_of, reps),
        0 <= r < origin.len() == reps.len(),
        0 <= k < origin[r].len(),
        0 <= origin[r][k] <= usize::MAX,
        in_group(trips, group_of, r, origin[r][k] as usize),
    ensures
        feed.retained(origin[r][k], date),
        feed.same_route(origin[r][k], reps[r] as int),
{
    let t = origin[r][k] as usize;
    let j = choose|j: int| 0 <= j < trips.len() && #[trigger] trips[j] == t && group_of[j] == r;
    assert(feed.retained(trips[j] as int, date));
    assert(feed.same_route(trips[j] as int, reps[group_of[j] as int] as int));
}

/// The routes built from a grouping of the retained trips hold each of them
/// once, and no two routes share a line, direction and sequence of stops.
proof fn lemma_built_from(
    n: Network,
    feed: Feed,
    date: ServiceDate,
    trips: Seq<usize>,
    group_of: Seq<usize>,
    reps: Seq<usize>,
    origin: Seq<Seq<int>>,
)
    requires
        is_retained_list(feed, date, trips),
        is_grouping(feed, trips, group_of, reps),
        n.routes@.len() == reps.len(),
        routes_built(feed, trips, group_of, n.routes@, n.route_stops@, n.stop_times@, origin),
    ensures
        built_from(n, feed, date, origin),
{
    // Each trip of a route is a listed trip of the route's group.
    assert forall|r: int, k: int| 0 <= r < origin.len() && 0 <= k < origin[r].len() implies
        feed.retained(#[trigger] origin[r][k], date) && feed.same_route(
        origin[r][0],
        origin[r][k],
    ) by {
        assert(route_matches(n.routes@, n.route_stops@, n.stop_times@, feed, r, origin[r]));
        lemma_member(feed, date, trips, group_of, reps, origin, r, k);
        lemma_member(feed, date, trips, group_of, reps, origin, r, 0);
    }
    assert forall|r: int, k: int, r2: int, k2: int|
        0 <= r < origin.len() && 0 <= k < origin[r].len() && 0 <= r2 < origin.len() && 0 <= k2
            < origin[r2].len() && #[trigger] origin[r][k] == #[trigger] origin[r2][k2] implies r
        == r2 && k == k2 by {
        let t = origin[r][k] as usize;
        assert(in_group(trips, group_of, r, t));
        assert(in_group(trips, group_of, r2, origin[r2][k2] as usize));
        let j = choose|j: int| 0 <= j < trips.len() && #[trigger] trips[j] == t && group_of[j] == r;
        let j2 = choose|j2: int|
            0 <= j2 < trips.len() && #[trigger] trips[j2] == t && group_of[j2] == r2;
        if j < j2 {
            assert(trips[j] < trips[j2]);
        } else if j2 < j {
            assert(trips[j2] < trips[j]);
        }
        assert(origin[r].no_duplicates());
    }
    assert forall|t: int| feed.retained(t, date) implies exists|r: int|
        0 <= r < origin.len() && #[trigger] origin[r].contains(t) by {
        let j = choose|j: int| 0 <= j < trips.len() && #[trigger] trips[j] == t;
        let r = group_of[j] as int;
        assert(origin[r].contains(trips[j] as int));
    }
    assert forall|r: int, r2: int| 0 <= r < r2 < origin.len() implies !feed.same_route(
        (#[trigger] origin[r])[0],
        (#[trigger] origin[r2])[0],
    ) by {
        assert(route_matches(n.routes@, n.route_stops@, n.stop_times@, feed, r, origin[r]));
        assert(route_matches(n.routes@, n.route_stops@, n.stop_times@, feed, r2, origin[r2]));
        lemma_member(feed, date, trips, group_of, reps, origin, r, 0);
        lemma_member(feed, date, trips, group_of, reps, origin, r2, 0);
        assert(!feed.same_route(reps[r] as int, reps[r2] as int));
    }
    assert forall|r: int, r2: int| 0 <= r < r2 < origin.len() implies #[trigger] begins_before(
        origin[r],
        origin[r2],
    ) by {
        assert(in_group(trips, group_of, r, reps[r]));
        let j = choose|j: int| 0 <= j < trips.len() && #[trigger] trips[j] == reps[r] && group_of[j] == r;
        assert(origin[r].contains(trips[j] as int));
        let k = choose|k: int| 0 <= k < origin[r].len() && origin[r][k] == reps[r] as int;
        assert forall|l: int| 0 <= l < origin[r2].len() implies #[trigger] origin[r][k]
            < #[trigger] origin[r2][l] by {
            let t = origin[r2][l] as usize;
            assert(in_group(trips, group_of, r2, t));
            let j2 = choose|j2: int|
                0 <= j2 < trips.len() && #[trigger] trips[j2] == t && group_of[j2] == r2;
            assert(reps[group_of[j2] as int] <= trips[j2]);
            assert(reps[r] < reps[r2]);
        }
    }
}

impl Network {
    /// Makes the timetable of one day out of a feed. Trips that run on that
    /// day and call at a stop are kept; those of one line, direction and
    /// sequence of stops make a route, in the order of their arrival at the
    /// first stop. Every stop gets the same transfer time, and the list of
    /// connections is left empty.
    #[verifier::rlimit(30)]
    pub fn new(feed: &Feed, journey_date: ServiceDate, default_transfer_time: Timestamp) -> (r:
        Result<Network, BuildError>)
        requires
            feed.wf(),
        ensures
            r is Ok <==> feed.stops@.len() < u32::MAX - 1 && feed.trips@.len() < u32::MAX && (
            forall|t: int|
                0 <= t < feed.trips@.len() ==> (#[trigger] feed.trip_runs(t, journey_date)) is Some)
                && !over_ceiling(*feed, journey_date),
            r matches Ok(n) ==> n.wf() && n.stop_routes_consistent() && n.stop_routes_sorted()
                && n.ordered_at_first_stop()
                && stops_from(n, *feed) && (exists|origin: Seq<Seq<int>>|
                built_from(n, *feed, journey_date, origin)) && n.transfer_times@ == Seq::new(
                feed.stops@.len(),
                |i: int| default_transfer_time,
            ) && n.connections@.len() == 0 && n.date == journey_date && n.has_shapes
                == feed.has_shapes,
            r matches Err(e) ==> match e {
                BuildError::TooManyStops { count } => count == feed.stops@.len() && count
                    >= u32::MAX - 1,
                BuildError::TooManyTrips { count } => count == feed.trips@.len() && count
                    >= u32::MAX && feed.stops@.len() < u32::MAX - 1,
                BuildError::MissingService { trip_id } => feed.stops@.len() < u32::MAX - 1
                    && feed.trips@.len() < u32::MAX && exists|t: int|
                    first_without_service(*feed, journey_date, t) && trip_id@ == feed.trips@[t].id@,
                BuildError::TooManyStopsInRoute { route_id, stops } => crowded(
                    *feed,
                    journey_date,
                    route_id@,
                ) && over_ceiling(*feed, journey_date) && stops@.len() == STOP_BITFIELD_SIZE_BITS,
            },
    {
        if feed.stops.len() >= (StopIndex::MAX - 1) as usize {
            return Err(BuildError::TooManyStops { count: feed.stops.len() });
        }
        if feed.trips.len() >= TripOrder::MAX as usize {
            return Err(BuildError::TooManyTrips { count: feed.trips.len() });
        }
        let trips = match retained_trips(feed, journey_date) {
            Ok(trips) => trips,
            Err(e) => {
                proof {
                    let t = choose|t: int| first_without_service(*feed, journey_date, t);
                    assert(feed.trip_runs(t, journey_date) is None);
                }
                return Err(e);
            },
        };
        proof {
            lemma_increasing_bound(trips@, feed.trips@.len() as int);
        }
        let (line_of, line_reps) = group_lines(feed, &trips);
        let line_stops = match collect_line_stops(
            feed,
            Ghost(journey_date),
            &trips,
            &line_of,
            &line_reps,
        ) {
            Ok(line_stops) => line_stops,
            Err(e) => {
                proof {
                    let route_id = e->TooManyStopsInRoute_route_id;
                    let stops = e->TooManyStopsInRoute_stops;
                    let found = choose|found: Seq<usize>|
                        #[trigger] names_too_many(
                            *feed,
                            journey_date,
                            route_id@,
                            stops@,
                            found,
                        );
                    assert(stops_of_line(*feed, journey_date, route_id@, found));
                    assert(crowded(*feed, journey_date, route_id@));
                    let t = choose|t: int|
                        feed.retained(t, journey_date) && #[trigger] line_id(*feed, t) == route_id@;
                    assert(crowded(*feed, journey_date, line_id(*feed, t)));
                }
                return Err(e);
            },
        };
        proof {
            lemma_under_ceiling(*feed, journey_date, trips@, line_of@, line_reps@, line_stops@);
        }
        let keys = route_keys(feed, &trips, &line_of, &line_stops);
        proof {
            assert forall|a: int, b: int|
                0 <= a < trips@.len() && 0 <= b < trips@.len() && feed.same_route(
                    trips@[a] as int,
                    trips@[b] as int,
                ) implies bits_of(#[trigger] keys@[a]) == bits_of(#[trigger] keys@[b]) by {
                let la = line_of@[a] as int;
                let lb = line_of@[b] as int;
                assert(line_id(*feed, trips@[a] as int) == line_id(*feed, line_reps@[la] as int));
                assert(line_id(*feed, trips@[b] as int) == line_id(*feed, line_reps@[lb] as int));
                if la < lb {
                    assert(line_id(*feed, line_reps@[la] as int) != line_id(
                        *feed,
                        line_reps@[lb] as int,
                    ));
                } else if lb < la {
                    assert(line_id(*feed, line_reps@[lb] as int) != line_id(
                        *feed,
                        line_reps@[la] as int,
                    ));
                }
                assert(trip_bits(*feed, trips@[a] as int, line_stops@[la]@) =~= trip_bits(
                    *feed,
                    trips@[b] as int,
                    line_stops@[la]@,
                ));
            }
        }
        let (group_of, reps) = group_trips(feed, &trips, &keys);
        let (routes, route_stops, stop_times, num_trips, Ghost(origin)) = build_routes(
            feed,
            &trips,
            &group_of,
            &reps,
        );
        proof {
            assert forall|i: int| 0 <= i < routes@.len() implies (#[trigger] routes@[i]).num_trips
                > 0 by {
                assert(route_matches(routes@, route_stops@, stop_times@, *feed, i, origin[i]));
            }
            lemma_trips_at_least_routes(routes@, routes@.len() as int);
            assert forall|r: int, i: int|
                0 <= r < routes@.len() && 0 <= i < routes@[r].num_stops implies (#[trigger] stop_in(
                routes@,
                route_stops@,
                r,
                i,
            )) < feed.stops@.len() by {
                assert(route_matches(routes@, route_stops@, stop_times@, *feed, r, origin[r]));
                let t = origin[r][0];
                assert(trip_matches(routes@[r], route_stops@, stop_times@, *feed, 0, t));
                assert(feed.trips@[t].stop_times@[i].stop < feed.stops@.len());
            }
            assert forall|r: int| 0 <= r < routes@.len() implies (#[trigger] routes@[r]).stops_within(
                route_stops@.len(),
            ) by {
                assert(route_matches(routes@, route_stops@, stop_times@, *feed, r, origin[r]));
            }
        }
        let total_route_stops = route_stops.len();
        let total_stop_times = stop_times.len();
        let map = routes_by_stop(&routes, &route_stops, feed.stops.len());
        let (stops, stop_routes) = build_stops(feed, &map);
        let total_stop_routes = stop_routes.len();
        let transfer_times = vec![default_transfer_time; stops.len()];
        let network = Network {
            routes,
            stops,
            num_trips,
            stop_times,
            stop_routes,
            route_stops,
            connections: Vec::new(),
            transfer_times,
            date: journey_date,
            has_shapes: feed.has_shapes,
        };
        proof {
            let n = network;
            assert forall|r: int| 0 <= r < n.routes@.len() implies #[trigger] n.route_wf(r) by {
                assert(route_matches(n.routes@, n.route_stops@, n.stop_times@, *feed, r, origin[r]));
                assert forall|i: int| 0 <= i < n.routes@[r].num_stops implies (
                #[trigger] n.route_stop(r, i)) < n.stops@.len() by {
                    assert(stop_in(n.routes@, n.route_stops@, r, i) < feed.stops@.len());
                }
            }
            assert forall|s: int| 0 <= s < n.stops@.len() implies #[trigger] n.stop_wf(s) by {
                assert(n.stops@[s].num_routes == map@[s]@.len());
                assert forall|k: int| 0 <= k < n.stops@[s].num_routes implies (
                #[trigger] n.stop_route(s, k)) < n.routes@.len() by {
                    assert(n.stop_route(s, k) == map@[s]@[k]);
                }
            }
            assert(n.wf());
            assert forall|s: int, r: int|
                0 <= s < n.stops@.len() && 0 <= r < n.routes@.len() implies (
            #[trigger] n.stop_lists(s, r) <==> n.route_calls_at(r, s)) by {
                assert(n.stops@[s].num_routes == map@[s]@.len());
                if n.stop_lists(s, r) {
                    let k = choose|k: int|
                        0 <= k < n.stops@[s].num_routes && #[trigger] n.stop_route(s, k) == r;
                    assert(n.stop_route(s, k) == map@[s]@[k]);
                    assert(calls_at(n.routes@, n.route_stops@, r, s));
                    let i = choose|i: int|
                        0 <= i < n.routes@[r].num_stops && #[trigger] stop_in(
                            n.routes@,
                            n.route_stops@,
                            r,
                            i,
                        ) == s;
                    assert(n.route_stop(r, i) == s);
                }
                if n.route_calls_at(r, s) {
                    let i = choose|i: int|
                        0 <= i < n.routes@[r].num_stops && #[trigger] n.route_stop(r, i) == s;
                    assert(stop_in(n.routes@, n.route_stops@, r, i) == s);
                    assert(map@[s]@.contains(r as RouteIndex));
                    let k = choose|k: int| 0 <= k < map@[s]@.len() && map@[s]@[k] == r as RouteIndex;
                    assert(n.stop_route(s, k) == map@[s]@[k]);
                }
            }
            assert forall|r: int, a: int, b: int|
                0 <= r < n.routes@.len() && 0 <= a < b < n.routes@[r].num_trips
                    implies #[trigger] n.arrival(r, a, 0) <= #[trigger] n.arrival(r, b, 0) by {
                assert(route_matches(n.routes@, n.route_stops@, n.stop_times@, *feed, r, origin[r]));
                let ta = origin[r][a];
                let tb = origin[r][b];
                assert(trip_matches(n.routes@[r], n.route_stops@, n.stop_times@, *feed, a, ta));
                assert(trip_matches(n.routes@[r], n.route_stops@, n.stop_times@, *feed, b, tb));
                assert(n.stop_time(r, a, 0) == feed_time(*feed, ta, 0));
                assert(n.stop_time(r, b, 0) == feed_time(*feed, tb, 0));
                assert(first_arrival(*feed, ta) <= first_arrival(*feed, tb));
            }
            assert forall|s: int, k: int, l: int|
                0 <= s < n.stops@.len() && 0 <= k < l < n.stops@[s].num_routes
                    implies #[trigger] n.stop_route(s, k) <= #[trigger] n.stop_route(s, l) by {
                assert(n.stops@[s].num_routes == map@[s]@.len());
                assert(n.stop_route(s, k) == map@[s]@[k]);
                assert(n.stop_route(s, l) == map@[s]@[l]);
            }
            lemma_built_from(n, *feed, journey_date, trips@, group_of@, reps@, origin);
            assert(n.transfer_times@ =~= Seq::new(
                feed.stops@.len(),
                |i: int| default_transfer_time,
            ));
        }
        Ok(network)
    }
}

/// Of two trips of one route that go into the network, the one that is no
/// later at the first stop is no later at any stop.
pub open spec fn feed_without_overtaking(feed: Feed, date: ServiceDate) -> bool {
    forall|a: int, b: int, i: int|
        feed.retained(a, date) && feed.retained(b, date) && feed.same_route(a, b) && first_arrival(
            feed,
            a,
        ) <= first_arrival(feed, b) && 0 <= i < feed.trips@[a].stop_times@.len() ==> (
        #[trigger] feed_time(feed, a, i)).departure_time <= (#[trigger] feed_time(
            feed,
            b,
            i,
        )).departure_time && feed_time(feed, a, i).arrival_time <= feed_time(feed, b, i).arrival_time
}

/// In a network built from a feed in which no trip overtakes another of its
/// route, the trips of each route are in order at every stop, by arrival
/// and by departure.
pub proof fn lemma_no_overtaking(n: Network, feed: Feed, date: ServiceDate, origin: Seq<Seq<int>>)
    requires
        built_from(n, feed, date, origin),
        feed_without_overtaking(feed, date),
    ensures
        n.no_overtaking(),
{
    assert forall|r: int, a: int, b: int, i: int|
        0 <= r < n.routes@.len() && 0 <= a < b < n.routes@[r].num_trips && 0 <= i
            < n.routes@[r].num_stops implies (#[trigger] n.stop_time(r, a, i)).departure_time <= (
    #[trigger] n.stop_time(r, b, i)).departure_time && n.stop_time(r, a, i).arrival_time
        <= n.stop_time(r, b, i).arrival_time by {
        assert(route_matches(n.routes@, n.route_stops@, n.stop_times@, feed, r, origin[r]));
        let ta = origin[r][a];
        let tb = origin[r][b];
        assert(trip_matches(n.routes@[r], n.route_stops@, n.stop_times@, feed, a, ta));
        assert(trip_matches(n.routes@[r], n.route_stops@, n.stop_times@, feed, b, tb));
        assert(n.stop_time(r, a, i) == feed_time(feed, ta, i));
        assert(n.stop_time(r, b, i) == feed_time(feed, tb, i));
        assert(feed.retained(ta, date) && feed.same_route(origin[r][0], ta));
        assert(feed.retained(tb, date) && feed.same_route(origin[r][0], tb));
        assert(feed.same_route(ta, tb));
        assert(first_arrival(feed, ta) <= first_arrival(feed, tb));
    }
}

} // verus!
