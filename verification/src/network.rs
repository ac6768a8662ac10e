use crate::feed::ServiceDate;
use crate::journey::Connection;
use vstd::prelude::*;

verus! {

/// Seconds since midnight of the service day.
pub type Timestamp = u32;

/// Dense index of a stop.
pub type StopIndex = u32;

/// Dense index of a route.
pub type RouteIndex = u32;

/// Position of a trip within its route, in order of departure.
pub type TripOrder = u32;

/// Secondary journey criterion, in whole cost units.
pub type PathfindingCost = u64;

/// Identifies one trip of the network: a route and a position within it.
#[derive(Clone, Copy, PartialEq, Eq, Structural, Debug)]
pub struct GlobalTripIndex {
    pub route_idx: RouteIndex,
    pub trip_order: TripOrder,
}

impl Default for GlobalTripIndex {
    fn default() -> (g: Self)
        ensures
            g.route_idx == 0,
            g.trip_order == 0,
    {
        GlobalTripIndex { route_idx: 0, trip_order: 0 }
    }
}

/// When one trip calls at one stop.
#[derive(Clone, Copy, PartialEq, Eq, Structural, Debug)]
pub struct StopTime {
    pub arrival_time: Timestamp,
    pub departure_time: Timestamp,
}

/// The colour in which a line is drawn.
#[derive(Clone, Copy, PartialEq, Eq, Structural, Debug)]
pub struct Colour {
    pub r: u8,
    pub g: u8,
    pub b: u8,
}

/// Trips that call at the same stops in the same order and direction.
pub struct Route {
    /// The label of the line, for display.
    pub line: String,
    pub num_stops: StopIndex,
    pub num_trips: TripOrder,
    /// Where the route's stops begin in the network's `route_stops`.
    pub route_stops_idx: usize,
    /// Where the route's stop times begin in the network's `stop_times`: one
    /// row of `num_stops` entries for each trip, in trip order.
    pub stop_times_idx: usize,
    /// The feed's name of each trip, in trip order.
    pub trip_ids: Vec<String>,
    pub colour: Colour,
}

impl Route {
    /// The route's stops lie within `route_stops`.
    pub open spec fn stops_within(&self, len: nat) -> bool {
        self.route_stops_idx + self.num_stops <= len
    }

    /// The route's stop times lie within a table of `len` entries.
    pub open spec fn times_within(&self, len: nat) -> bool {
        self.stop_times_idx + self.num_trips * self.num_stops <= len
    }

    /// The route's stops, in the order in which its trips call at them.
    pub open spec fn spec_stops(&self, route_stops: Seq<StopIndex>) -> Seq<StopIndex> {
        route_stops.subrange(
            self.route_stops_idx as int,
            self.route_stops_idx + self.num_stops,
        )
    }

    /// Where the stop time of a trip at a stop order lies in the table.
    pub open spec fn spec_stop_times_index(&self, trip_order: int, stop_order: int) -> int {
        self.stop_times_idx + trip_order * self.num_stops + stop_order
    }

    /// A stop time of the route lies within the route's part of the table.
    pub proof fn lemma_index_within(&self, trip_order: int, stop_order: int)
        requires
            0 <= trip_order < self.num_trips,
            0 <= stop_order <= self.num_stops,
        ensures
            self.stop_times_idx <= self.stop_times_idx + trip_order * self.num_stops,
            self.spec_stop_times_index(trip_order, stop_order) <= self.stop_times_idx
                + self.num_trips * self.num_stops,
            stop_order < self.num_stops ==> self.spec_stop_times_index(trip_order, stop_order)
                < self.stop_times_idx + self.num_trips * self.num_stops,
    {
        let n = self.num_stops as int;
        let t = trip_order;
        let k = self.num_trips as int;
        assert(0 <= t * n) by (nonlinear_arith)
            requires
                0 <= t,
                0 <= n,
        ;
        assert(t * n + n <= k * n) by (nonlinear_arith)
            requires
                0 <= t < k,
                0 <= n,
        ;
    }

    pub fn get_stops<'a>(&self, route_stops: &'a [StopIndex]) -> (stops: &'a [StopIndex])
        requires
            self.stops_within(route_stops@.len()),
        ensures
            stops@ == self.spec_stops(route_stops@),
    {
        // The length call bounds the slice, and so the sum below.
        let len = route_stops.len();
        assert(self.route_stops_idx + self.num_stops <= len);
        vstd::slice::slice_subrange(
            route_stops,
            self.route_stops_idx,
            self.route_stops_idx + self.num_stops as usize,
        )
    }

    /// The stops from `earliest_stop_order` on, each with its order.
    pub fn iter_stops(&self, earliest_stop_order: usize, route_stops: &[StopIndex]) -> (pairs: Vec<
        (usize, usize),
    >)
        requires
            self.stops_within(route_stops@.len()),
        ensures
            pairs@.len() == if earliest_stop_order <= self.num_stops {
                self.num_stops - earliest_stop_order
            } else {
                0
            },
            forall|k: int|
                0 <= k < pairs@.len() ==> (#[trigger] pairs@[k]).0 == earliest_stop_order + k
                    && pairs@[k].1 == self.spec_stops(route_stops@)[earliest_stop_order + k],
    {
        let stops = self.get_stops(route_stops);
        let mut pairs: Vec<(usize, usize)> = Vec::new();
        let mut i: usize = earliest_stop_order;
        while i < stops.len()
            invariant
                stops@ == self.spec_stops(route_stops@),
                stops@.len() == self.num_stops,
                earliest_stop_order <= i,
                i <= stops@.len() || i == earliest_stop_order,
                pairs@.len() == if earliest_stop_order <= self.num_stops {
                    i - earliest_stop_order
                } else {
                    0
                },
                forall|k: int|
                    0 <= k < pairs@.len() ==> (#[trigger] pairs@[k]).0 == earliest_stop_order + k
                        && pairs@[k].1 == stops@[earliest_stop_order + k],
            decreases stops@.len() - i,
        {
            pairs.push((i, stops[i] as usize));
            i += 1;
        }
        pairs
    }

    /// The part of the table that holds one trip's stop times.
    pub fn get_trip_range(&self, trip_order: usize) -> (range: core::ops::Range<usize>)
        requires
            trip_order < self.num_trips,
            self.stop_times_idx + self.num_trips * self.num_stops <= usize::MAX,
        ensures
            range.start == self.spec_stop_times_index(trip_order as int, 0),
            range.end == range.start + self.num_stops,
    {
        proof {
            self.lemma_index_within(trip_order as int, 0);
            self.lemma_index_within(trip_order as int, self.num_stops as int);
        }
        let start = self.stop_times_idx + trip_order * self.num_stops as usize;
        let end = start + self.num_stops as usize;
        start..end
    }

    pub fn get_stop_times_index(&self, trip_order: usize, stop_order: usize) -> (index: usize)
        requires
            trip_order < self.num_trips,
            stop_order < self.num_stops,
            self.stop_times_idx + self.num_trips * self.num_stops <= usize::MAX,
        ensures
            index == self.spec_stop_times_index(trip_order as int, stop_order as int),
            index < self.stop_times_idx + self.num_trips * self.num_stops,
    {
        proof {
            self.lemma_index_within(trip_order as int, stop_order as int);
        }
        let trip_range = self.get_trip_range(trip_order);
        trip_range.start + stop_order
    }

    /// The stop times of one trip, in stop order.
    pub fn get_trip<'a>(&self, trip_order: usize, stop_times: &'a [StopTime]) -> (trip: &'a [
        StopTime
    ])
        requires
            trip_order < self.num_trips,
            self.times_within(stop_times@.len()),
        ensures
            trip@ == stop_times@.subrange(
                self.spec_stop_times_index(trip_order as int, 0),
                self.spec_stop_times_index(trip_order as int, 0) + self.num_stops,
            ),
    {
        let len = stop_times.len();
        proof {
            self.lemma_index_within(trip_order as int, self.num_stops as int);
        }
        assert(self.stop_times_idx + self.num_trips * self.num_stops <= len);
        let range = self.get_trip_range(trip_order);
        vstd::slice::slice_subrange(stop_times, range.start, range.end)
    }
}

/// A place where passengers board and leave vehicles.
#[derive(Debug)]
pub struct Stop {
    pub name: String,
    pub id: String,
    /// Where the stop's routes begin in the network's `stop_routes`.
    pub routes_idx: usize,
    pub num_routes: usize,
}

impl Stop {
    pub fn new(name: &str, id: &str) -> (stop: Self)
        ensures
            stop.name@ == name@,
            stop.id@ == id@,
            stop.routes_idx == 0,
            stop.num_routes == 0,
    {
        Self { name: name.to_owned(), id: id.to_owned(), routes_idx: 0, num_routes: 0 }
    }

    /// The routes that call at the stop.
    pub open spec fn spec_routes(&self, stop_routes: Seq<RouteIndex>) -> Seq<RouteIndex> {
        stop_routes.subrange(self.routes_idx as int, self.routes_idx + self.num_routes)
    }

    pub fn get_routes<'a>(&self, stop_routes: &'a [RouteIndex]) -> (routes: &'a [RouteIndex])
        requires
            self.routes_idx + self.num_routes <= stop_routes@.len(),
        ensures
            routes@ == self.spec_routes(stop_routes@),
    {
        let len = stop_routes.len();
        assert(self.routes_idx + self.num_routes <= len);
        vstd::slice::slice_subrange(
            stop_routes,
            self.routes_idx,
            self.routes_idx + self.num_routes,
        )
    }
}

/// The number of trips of the first `r` routes.
pub open spec fn trips_before(routes: Seq<Route>, r: int) -> int
    decreases r,
{
    if r <= 0 {
        0
    } else {
        trips_before(routes, r - 1) + routes[r - 1].num_trips
    }
}

/// The number of trips grows with the number of routes counted.
pub proof fn lemma_trips_before_monotone(routes: Seq<Route>, a: int, b: int)
    requires
        0 <= a <= b,
    ensures
        0 <= trips_before(routes, a) <= trips_before(routes, b),
        a < b ==> trips_before(routes, a) + routes[a].num_trips <= trips_before(routes, b),
    decreases b - a,
{
    if a < b {
        lemma_trips_before_monotone(routes, a, b - 1);
    } else {
        lemma_trips_before_nonnegative(routes, a);
    }
}

/// The number of trips of the first `r` routes depends on those routes alone.
pub proof fn lemma_trips_before_prefix(a: Seq<Route>, b: Seq<Route>, r: int)
    requires
        0 <= r <= a.len(),
        r <= b.len(),
        forall|i: int| 0 <= i < r ==> a[i].num_trips == b[i].num_trips,
    ensures
        trips_before(a, r) == trips_before(b, r),
    decreases r,
{
    if r > 0 {
        lemma_trips_before_prefix(a, b, r - 1);
    }
}

proof fn lemma_trips_before_nonnegative(routes: Seq<Route>, a: int)
    ensures
        0 <= trips_before(routes, a),
    decreases a,
{
    if a > 0 {
        lemma_trips_before_nonnegative(routes, a - 1);
    }
}

/// Connections in order of departure.
pub open spec fn sorted_by_departure(s: Seq<Connection>) -> bool {
    forall|i: int, j: int| 0 <= i < j < s.len() ==> s[i].departure_time <= s[j].departure_time
}

/// A timetable in flat arrays, with dense indices for stops, routes and trips.
pub struct Network {
    pub routes: Vec<Route>,
    pub stops: Vec<Stop>,
    /// The number of trips of all routes together.
    pub num_trips: TripOrder,
    /// The stop times of each route's trips, route after route.
    pub stop_times: Vec<StopTime>,
    /// The routes of each stop, stop after stop.
    pub stop_routes: Vec<RouteIndex>,
    /// The stops of each route, route after route.
    pub route_stops: Vec<StopIndex>,
    /// All hops of all trips in order of departure, once they are built.
    pub connections: Vec<Connection>,
    /// The time a change of vehicles takes at each stop, in seconds.
    pub transfer_times: Vec<Timestamp>,
    /// The day for which the timetable holds.
    pub date: ServiceDate,
    pub has_shapes: bool,
}

impl Network {
    /// The stop at which route `r` calls in the place `i`.
    pub open spec fn route_stop(&self, r: int, i: int) -> StopIndex {
        self.route_stops@[self.routes@[r].route_stops_idx + i]
    }

    /// The `k`-th route of stop `s`.
    pub open spec fn stop_route(&self, s: int, k: int) -> RouteIndex {
        self.stop_routes@[self.stops@[s].routes_idx + k]
    }

    /// When trip `t` of route `r` calls at the route's stop in place `i`.
    pub open spec fn stop_time(&self, r: int, t: int, i: int) -> StopTime {
        self.stop_times@[self.routes@[r].spec_stop_times_index(t, i)]
    }

    pub open spec fn arrival(&self, r: int, t: int, i: int) -> Timestamp {
        self.stop_time(r, t, i).arrival_time
    }

    pub open spec fn departure(&self, r: int, t: int, i: int) -> Timestamp {
        self.stop_time(r, t, i).departure_time
    }

    /// Route `r` lies within the flat arrays and names stops that exist.
    pub open spec fn route_wf(&self, r: int) -> bool {
        let route = self.routes@[r];
        &&& route.stops_within(self.route_stops@.len())
        &&& route.times_within(self.stop_times@.len())
        &&& route.trip_ids@.len() == route.num_trips
        &&& forall|i: int|
            0 <= i < route.num_stops ==> (#[trigger] self.route_stop(r, i)) < self.stops@.len()
    }

    /// Stop `s` lies within the flat arrays and names routes that exist.
    pub open spec fn stop_wf(&self, s: int) -> bool {
        let stop = self.stops@[s];
        &&& stop.routes_idx + stop.num_routes <= self.stop_routes@.len()
        &&& forall|k: int|
            0 <= k < stop.num_routes ==> (#[trigger] self.stop_route(s, k)) < self.routes@.len()
    }

    /// `(r, t, i)` is a hop: trip `t` of route `r` leaving the route's stop in
    /// place `i` for the next.
    pub open spec fn valid_hop(&self, r: int, t: int, i: int) -> bool {
        &&& 0 <= r < self.routes@.len()
        &&& 0 <= t < self.routes@[r].num_trips
        &&& 0 <= i
        &&& i + 1 < self.routes@[r].num_stops
    }

    /// The connection that a hop makes.
    pub open spec fn hop(&self, r: int, t: int, i: int) -> Connection {
        Connection {
            sequential_trip_idx: (trips_before(self.routes@, r) + t) as TripOrder,
            trip: GlobalTripIndex { route_idx: r as RouteIndex, trip_order: t as TripOrder },
            departure_idx: self.route_stop(r, i),
            departure_stop_order: i as StopIndex,
            departure_time: self.departure(r, t, i),
            arrival_idx: self.route_stop(r, i + 1),
            arrival_time: self.arrival(r, t, i + 1),
        }
    }

    /// `c` is the connection of the hop that it names.
    pub open spec fn connection_wf(&self, c: Connection) -> bool {
        &&& self.valid_hop(
            c.trip.route_idx as int,
            c.trip.trip_order as int,
            c.departure_stop_order as int,
        )
        &&& c == self.hop(
            c.trip.route_idx as int,
            c.trip.trip_order as int,
            c.departure_stop_order as int,
        )
    }

    /// The arrays fit together: every index that one of them holds points
    /// into the array it is meant for, and the connections, where there are
    /// any, are hops of the timetable in order of departure.
    pub open spec fn wf(&self) -> bool {
        &&& self.stops@.len() <= u32::MAX
        &&& self.routes@.len() <= u32::MAX
        &&& self.transfer_times@.len() == self.stops@.len()
        &&& self.route_stops@.len() <= usize::MAX
        &&& self.stop_routes@.len() <= usize::MAX
        &&& self.stop_times@.len() <= usize::MAX
        &&& forall|r: int| 0 <= r < self.routes@.len() ==> #[trigger] self.route_wf(r)
        &&& forall|s: int| 0 <= s < self.stops@.len() ==> #[trigger] self.stop_wf(s)
        &&& self.num_trips == trips_before(self.routes@, self.routes@.len() as int)
        &&& forall|k: int|
            0 <= k < self.connections@.len() ==> self.connection_wf(#[trigger] self.connections@[k])
        &&& sorted_by_departure(self.connections@)
    }

    /// Every hop of the timetable is among the connections, once.
    pub open spec fn connections_complete(&self) -> bool {
        &&& forall|r: int, t: int, i: int|
            self.valid_hop(r, t, i) ==> self.connections@.contains(#[trigger] self.hop(r, t, i))
        &&& self.connections@.no_duplicates()
    }

    pub fn get_stop(&self, stop: usize) -> (s: &Stop)
        requires
            stop < self.stops@.len(),
        ensures
            *s == self.stops@[stop as int],
    {
        &self.stops[stop]
    }

    pub fn num_stops(&self) -> (n: usize)
        ensures
            n == self.stops@.len(),
    {
        self.stops.len()
    }

    pub fn num_routes(&self) -> (n: usize)
        ensures
            n == self.routes@.len(),
    {
        self.routes.len()
    }

    pub fn num_trips(&self, route_idx: usize) -> (n: usize)
        requires
            route_idx < self.routes@.len(),
        ensures
            n == self.routes@[route_idx as int].num_trips,
    {
        self.routes[route_idx].num_trips as usize
    }

    pub fn num_stops_in_route(&self, route_idx: usize) -> (n: usize)
        requires
            route_idx < self.routes@.len(),
        ensures
            n == self.routes@[route_idx as int].num_stops,
    {
        self.routes[route_idx].num_stops as usize
    }

    pub fn get_stop_in_route(&self, route_idx: usize, stop_order: usize) -> (stop: StopIndex)
        requires
            self.wf(),
            route_idx < self.routes@.len(),
            stop_order < self.routes@[route_idx as int].num_stops,
        ensures
            stop == self.route_stop(route_idx as int, stop_order as int),
            stop < self.stops@.len(),
    {
        assert(self.route_wf(route_idx as int));
        let route = &self.routes[route_idx];
        let stop = self.route_stops[route.route_stops_idx + stop_order];
        assert(stop == self.route_stop(route_idx as int, stop_order as int));
        stop
    }

    /// The stop times of one trip, in stop order.
    pub fn get_trip(&self, route_idx: usize, trip_idx: usize) -> (trip: &[StopTime])
        requires
            self.wf(),
            route_idx < self.routes@.len(),
            trip_idx < self.routes@[route_idx as int].num_trips,
        ensures
            trip@.len() == self.routes@[route_idx as int].num_stops,
            forall|i: int|
                0 <= i < trip@.len() ==> trip@[i] == #[trigger] self.stop_time(
                    route_idx as int,
                    trip_idx as int,
                    i,
                ),
    {
        assert(self.route_wf(route_idx as int));
        let route = &self.routes[route_idx];
        proof {
            route.lemma_index_within(trip_idx as int, route.num_stops as int);
        }
        route.get_trip(trip_idx, self.stop_times.as_slice())
    }

    pub fn get_stop_time(&self, route_idx: usize, trip_idx: usize, stop_order: usize) -> (st:
        StopTime)
        requires
            self.wf(),
            route_idx < self.routes@.len(),
            trip_idx < self.routes@[route_idx as int].num_trips,
            stop_order < self.routes@[route_idx as int].num_stops,
        ensures
            st == self.stop_time(route_idx as int, trip_idx as int, stop_order as int),
    {
        assert(self.route_wf(route_idx as int));
        let route = &self.routes[route_idx];
        let index = route.get_stop_times_index(trip_idx, stop_order);
        self.stop_times[index]
    }

    pub fn get_departure_time(&self, route_idx: usize, trip_idx: usize, stop_idx: usize) -> (time:
        Timestamp)
        requires
            self.wf(),
            route_idx < self.routes@.len(),
            trip_idx < self.routes@[route_idx as int].num_trips,
            stop_idx < self.routes@[route_idx as int].num_stops,
        ensures
            time == self.departure(route_idx as int, trip_idx as int, stop_idx as int),
    {
        self.get_stop_time(route_idx, trip_idx, stop_idx).departure_time
    }

    pub fn get_arrival_time(&self, route_idx: usize, trip_idx: usize, stop_idx: usize) -> (time:
        Timestamp)
        requires
            self.wf(),
            route_idx < self.routes@.len(),
            trip_idx < self.routes@[route_idx as int].num_trips,
            stop_idx < self.routes@[route_idx as int].num_stops,
        ensures
            time == self.arrival(route_idx as int, trip_idx as int, stop_idx as int),
    {
        self.get_stop_time(route_idx, trip_idx, stop_idx).arrival_time
    }

    /// The feed's name of a trip.
    pub fn get_trip_id(&self, trip_idx: GlobalTripIndex) -> (id: &str)
        requires
            self.wf(),
            trip_idx.route_idx < self.routes@.len(),
            trip_idx.trip_order < self.routes@[trip_idx.route_idx as int].num_trips,
        ensures
            id@ == self.routes@[trip_idx.route_idx as int].trip_ids@[trip_idx.trip_order as int]@,
    {
        assert(self.route_wf(trip_idx.route_idx as int));
        let route = &self.routes[trip_idx.route_idx as usize];
        route.trip_ids[trip_idx.trip_order as usize].as_str()
    }
}

/// The lower-case form of a text, as `str::to_lowercase` of the standard
/// library gives it.
pub uninterp spec fn lowercase_of(s: Seq<char>) -> Seq<char>;

/// `str::to_lowercase`: the text with each character replaced by its
/// lower-case form under the Unicode rules.
#[verifier::external_body]
fn to_lowercase(s: &str) -> (lower: String)
    ensures
        lower@ == lowercase_of(s@),
{
    s.to_lowercase()
}

/// A text without its space characters.
pub open spec fn without_spaces(s: Seq<char>) -> Seq<char>
    decreases s.len(),
{
    if s.len() == 0 {
        s
    } else if s.last() == ' ' {
        without_spaces(s.drop_last())
    } else {
        without_spaces(s.drop_last()).push(s.last())
    }
}

/// The characters of a text that are no spaces, in order.
pub fn strip_spaces(s: &str) -> (v: Vec<char>)
    ensures
        v@ == without_spaces(s@),
{
    let n = s.unicode_len();
    let mut v: Vec<char> = Vec::new();
    let mut i: usize = 0;
    while i < n
        invariant
            n == s@.len(),
            i <= n,
            v@ == without_spaces(s@.subrange(0, i as int)),
        decreases n - i,
    {
        let c = s.get_char(i);
        proof {
            assert(s@.subrange(0, i + 1).drop_last() =~= s@.subrange(0, i as int));
        }
        if c != ' ' {
            v.push(c);
        }
        i += 1;
    }
    assert(s@.subrange(0, n as int) =~= s@);
    v
}

/// Whether two texts are the same but for their spaces.
pub fn eq_ignoring_spaces(a: &str, b: &str) -> (r: bool)
    ensures
        r == (without_spaces(a@) == without_spaces(b@)),
{
    let x = strip_spaces(a);
    let y = strip_spaces(b);
    if x.len() != y.len() {
        return false;
    }
    let mut i: usize = 0;
    while i < x.len()
        invariant
            x@ == without_spaces(a@),
            y@ == without_spaces(b@),
            x@.len() == y@.len(),
            i <= x@.len(),
            forall|j: int| 0 <= j < i ==> x@[j] == y@[j],
        decreases x@.len() - i,
    {
        if x[i] != y[i] {
            return false;
        }
        i += 1;
    }
    assert(x@ =~= y@);
    true
}

/// What `stop_name_cmp` compares: the short name of `a` and the text `b`,
/// both in lower case and without spaces.
pub open spec fn names_match(a: Seq<char>, short_a: Seq<char>, b: Seq<char>) -> bool {
    &&& crate::utils::is_prefix_before(a, " Railway Station"@, short_a)
    &&& without_spaces(lowercase_of(short_a)) == without_spaces(lowercase_of(b))
}

/// The short name of `a` and the text `b` are the same but for case and
/// spaces.
pub open spec fn same_name(a: Seq<char>, b: Seq<char>) -> bool {
    exists|short_a: Seq<char>| names_match(a, short_a, b)
}

/// Whether the short name of `a` and the text `b` are the same but for case
/// and spaces.
fn same_stop_name(a: &str, b: &str) -> (r: bool)
    ensures
        r == same_name(a@, b@),
{
    let short = crate::utils::get_short_stop_name(a);
    let lower_a = to_lowercase(short);
    let lower_b = to_lowercase(b);
    let r = eq_ignoring_spaces(lower_a.as_str(), lower_b.as_str());
    proof {
        if r {
            assert(names_match(a@, short@, b@));
        } else {
            assert forall|other: Seq<char>| !names_match(a@, other, b@) by {
                if crate::utils::is_prefix_before(a@, " Railway Station"@, other) {
                    crate::utils::lemma_prefix_before_unique(
                        a@,
                        " Railway Station"@,
                        short@,
                        other,
                    );
                }
            }
        }
    }
    r
}

impl Network {
    /// Whether a stop's name and a name that was asked for are the same,
    /// taking the stop's short name and overlooking case and spaces.
    pub fn stop_name_cmp(a: &str, b: &str) -> (r: bool)
        ensures
            r == same_name(a@, b@),
    {
        same_stop_name(a, b)
    }

    /// The index of the stop with the feed's name `stop_id`, if there is one.
    pub fn get_stop_idx(&self, stop_id: &str) -> (r: Option<StopIndex>)
        requires
            self.wf(),
        ensures
            r matches Some(i) ==> i < self.stops@.len() && self.stops@[i as int].id@ == stop_id@
                && forall|j: int| 0 <= j < i ==> self.stops@[j].id@ != stop_id@,
            r is None ==> forall|j: int| 0 <= j < self.stops@.len() ==> self.stops@[j].id@ != stop_id@,
    {
        let wanted = stop_id.to_owned();
        let mut i: usize = 0;
        while i < self.stops.len()
            invariant
                self.stops@.len() <= u32::MAX,
                wanted@ == stop_id@,
                i <= self.stops@.len(),
                forall|j: int| 0 <= j < i ==> self.stops@[j].id@ != stop_id@,
            decreases self.stops@.len() - i,
        {
            if self.stops[i].id == wanted {
                return Some(i as StopIndex);
            }
            i += 1;
        }
        None
    }

    /// Stop `j` goes by the name `name`.
    pub open spec fn stop_named(&self, j: int, name: Seq<char>) -> bool {
        same_name(self.stops@[j].name@, name)
    }

    /// The index of the first stop whose name matches `stop_name`, if there
    /// is one.
    pub fn get_stop_idx_from_name(&self, stop_name: &str) -> (r: Option<StopIndex>)
        requires
            self.wf(),
        ensures
            r matches Some(i) ==> i < self.stops@.len() && self.stop_named(i as int, stop_name@)
                && forall|j: int| 0 <= j < i ==> !#[trigger] self.stop_named(j, stop_name@),
            r is None ==> forall|j: int|
                0 <= j < self.stops@.len() ==> !#[trigger] self.stop_named(j, stop_name@),
    {
        let mut i: usize = 0;
        while i < self.stops.len()
            invariant
                self.stops@.len() <= u32::MAX,
                i <= self.stops@.len(),
                forall|j: int| 0 <= j < i ==> !#[trigger] self.stop_named(j, stop_name@),
            decreases self.stops@.len() - i,
        {
            if same_stop_name(self.stops[i].name.as_str(), stop_name) {
                return Some(i as StopIndex);
            }
            i += 1;
        }
        None
    }

    /// Sets the time that a change of vehicles takes at one stop.
    pub fn set_transfer_time_for_stop(&mut self, stop_id: &str, transfer_time: Timestamp)
        requires
            old(self).wf(),
            exists|i: int|
                0 <= i < old(self).stops@.len() && old(self).stops@[i].id@ == stop_id@,
        ensures
            final(self).wf(),
            *final(self) == (Network {
                transfer_times: final(self).transfer_times,
                ..*old(self)
            }),
            exists|i: int|
                0 <= i < old(self).stops@.len() && old(self).stops@[i].id@ == stop_id@ && (forall|
                    j: int,
                |
                    0 <= j < i ==> old(self).stops@[j].id@ != stop_id@)
                    && final(self).transfer_times@ == old(self).transfer_times@.update(
                    i,
                    transfer_time,
                ),
    {
        match self.get_stop_idx(stop_id) {
            Some(stop_idx) => {
                self.transfer_times.set(stop_idx as usize, transfer_time);
                proof {
                    self.lemma_wf_after_transfer_times(*old(self));
                }
            },
            None => {},
        }
    }

    /// Well-formedness does not depend on the transfer times but for their
    /// number.
    proof fn lemma_wf_after_transfer_times(&self, before: Network)
        requires
            before.wf(),
            self.transfer_times@.len() == before.transfer_times@.len(),
            *self == (Network { transfer_times: self.transfer_times, ..before }),
        ensures
            self.wf(),
    {
        assert forall|r: int| 0 <= r < self.routes@.len() implies #[trigger] self.route_wf(r) by {
            assert(before.route_wf(r));
            assert forall|i: int| 0 <= i < self.routes@[r].num_stops implies (
            #[trigger] self.route_stop(r, i)) < self.stops@.len() by {
                assert(before.route_stop(r, i) < before.stops@.len());
            }
        }
        assert forall|s: int| 0 <= s < self.stops@.len() implies #[trigger] self.stop_wf(s) by {
            assert(before.stop_wf(s));
            assert forall|k: int| 0 <= k < self.stops@[s].num_routes implies (
            #[trigger] self.stop_route(s, k)) < self.routes@.len() by {
                assert(before.stop_route(s, k) < before.routes@.len());
            }
        }
        assert forall|k: int| 0 <= k < self.connections@.len() implies self.connection_wf(
            #[trigger] self.connections@[k],
        ) by {
            assert(before.connection_wf(before.connections@[k]));
        }
    }
}

/// `slice::sort_unstable_by_key` with the departure time as the key: the
/// same connections, in order of departure. Which of two connections that
/// depart together comes first is left open.
#[verifier::external_body]
fn sort_by_departure(connections: &mut Vec<Connection>)
    ensures
        final(connections)@.to_multiset() == old(connections)@.to_multiset(),
        sorted_by_departure(final(connections)@),
{
    connections.sort_unstable_by_key(|x| x.departure_time);
}

/// Whether hop `(r1, t1, i1)` comes before `(r, t, i)` when the hops are
/// taken route by route, trip by trip and stop by stop.
pub open spec fn hop_before(r1: int, t1: int, i1: int, r: int, t: int, i: int) -> bool {
    r1 < r || (r1 == r && (t1 < t || (t1 == t && i1 < i)))
}

proof fn lemma_push_contains<T>(s: Seq<T>, x: T, y: T)
    requires
        s.contains(y) || x == y,
    ensures
        s.push(x).contains(y),
{
    if s.contains(y) {
        let i = choose|i: int| 0 <= i < s.len() && s[i] == y;
        assert(s.push(x)[i] == y);
    } else {
        assert(s.push(x)[s.len() as int] == y);
    }
}

pub(crate) proof fn lemma_same_elements<T>(a: Seq<T>, b: Seq<T>)
    requires
        a.to_multiset() == b.to_multiset(),
    ensures
        a.len() == b.len(),
        forall|x: T| a.contains(x) <==> b.contains(x),
        a.no_duplicates() ==> b.no_duplicates(),
{
    broadcast use vstd::seq_lib::group_to_multiset_ensures;

    a.to_multiset_ensures();
    b.to_multiset_ensures();
    assert forall|x: T| a.contains(x) <==> b.contains(x) by {
        assert(a.contains(x) <==> a.to_multiset().count(x) > 0);
        assert(b.contains(x) <==> b.to_multiset().count(x) > 0);
    }
    if a.no_duplicates() {
        a.lemma_multiset_has_no_duplicates();
        b.lemma_multiset_has_no_duplicates_conv();
    }
}

impl Network {
    /// Builds the list of connections: one for every hop of every trip, in
    /// order of departure.
    #[verifier::rlimit(30)]
    pub fn build_connections(&mut self)
        requires
            old(self).wf(),
        ensures
            final(self).wf(),
            final(self).connections_complete(),
            *final(self) == (Network { connections: final(self).connections, ..*old(self) }),
    {
        let mut connections: Vec<Connection> = Vec::new();
        let mut sequential_trip_idx: TripOrder = 0;
        let mut route_idx: usize = 0;
        while route_idx < self.routes.len()
            invariant
                self.wf(),
                route_idx <= self.routes@.len(),
                sequential_trip_idx == trips_before(self.routes@, route_idx as int),
                forall|k: int|
                    0 <= k < connections@.len() ==> self.connection_wf(#[trigger] connections@[k]),
                forall|k: int|
                    0 <= k < connections@.len() ==> (#[trigger] connections@[k]).trip.route_idx
                        < route_idx,
                forall|r: int, t: int, i: int|
                    self.valid_hop(r, t, i) && r < route_idx ==> connections@.contains(
                        #[trigger] self.hop(r, t, i),
                    ),
                connections@.no_duplicates(),
            decreases self.routes@.len() - route_idx,
        {
            assert(self.route_wf(route_idx as int));
            proof {
                lemma_trips_before_monotone(
                    self.routes@,
                    route_idx as int,
                    self.routes@.len() as int,
                );
            }
            let num_stops = self.routes[route_idx].num_stops as usize;
            let num_trips = self.routes[route_idx].num_trips as usize;
            let mut trip_order: usize = 0;
            while trip_order < num_trips
                invariant
                    self.wf(),
                    route_idx < self.routes@.len(),
                    self.route_wf(route_idx as int),
                    num_stops == self.routes@[route_idx as int].num_stops,
                    num_trips == self.routes@[route_idx as int].num_trips,
                    trip_order <= num_trips,
                    trips_before(self.routes@, route_idx as int) + num_trips <= self.num_trips,
                    sequential_trip_idx == trips_before(self.routes@, route_idx as int)
                        + trip_order,
                    forall|k: int|
                        0 <= k < connections@.len() ==> self.connection_wf(
                            #[trigger] connections@[k],
                        ),
                    forall|k: int|
                        0 <= k < connections@.len() ==> hop_before(
                            (#[trigger] connections@[k]).trip.route_idx as int,
                            connections@[k].trip.trip_order as int,
                            connections@[k].departure_stop_order as int,
                            route_idx as int,
                            trip_order as int,
                            0,
                        ),
                    forall|r: int, t: int, i: int|
                        self.valid_hop(r, t, i) && hop_before(
                            r,
                            t,
                            i,
                            route_idx as int,
                            trip_order as int,
                            0,
                        ) ==> connections@.contains(#[trigger] self.hop(r, t, i)),
                    connections@.no_duplicates(),
                decreases num_trips - trip_order,
            {
                let mut arrival_stop_order: usize = 1;
                while arrival_stop_order < num_stops
                    invariant
                        self.wf(),
                        route_idx < self.routes@.len(),
                        self.route_wf(route_idx as int),
                        num_stops == self.routes@[route_idx as int].num_stops,
                        num_trips == self.routes@[route_idx as int].num_trips,
                        trip_order < num_trips,
                        1 <= arrival_stop_order,
                        arrival_stop_order <= num_stops || num_stops == 0,
                        sequential_trip_idx == trips_before(self.routes@, route_idx as int)
                            + trip_order,
                        forall|k: int|
                            0 <= k < connections@.len() ==> self.connection_wf(
                                #[trigger] connections@[k],
                            ),
                        forall|k: int|
                            0 <= k < connections@.len() ==> hop_before(
                                (#[trigger] connections@[k]).trip.route_idx as int,
                                connections@[k].trip.trip_order as int,
                                connections@[k].departure_stop_order as int,
                                route_idx as int,
                                trip_order as int,
                                arrival_stop_order - 1,
                            ),
                        forall|r: int, t: int, i: int|
                            self.valid_hop(r, t, i) && hop_before(
                                r,
                                t,
                                i,
                                route_idx as int,
                                trip_order as int,
                                arrival_stop_order - 1,
                            ) ==> connections@.contains(#[trigger] self.hop(r, t, i)),
                        connections@.no_duplicates(),
                    decreases num_stops - arrival_stop_order,
                {
                    let departure_stop_order = arrival_stop_order - 1;
                    let departure_idx = self.get_stop_in_route(route_idx, departure_stop_order);
                    let arrival_idx = self.get_stop_in_route(route_idx, arrival_stop_order);
                    let departure = self.get_stop_time(route_idx, trip_order, departure_stop_order);
                    let arrival = self.get_stop_time(route_idx, trip_order, arrival_stop_order);
                    let connection = Connection {
                        sequential_trip_idx,
                        trip: GlobalTripIndex {
                            route_idx: route_idx as RouteIndex,
                            trip_order: trip_order as TripOrder,
                        },
                        departure_idx,
                        departure_stop_order: departure_stop_order as StopIndex,
                        departure_time: departure.departure_time,
                        arrival_idx,
                        arrival_time: arrival.arrival_time,
                    };
                    let ghost before = connections@;
                    proof {
                        assert(connection == self.hop(
                            route_idx as int,
                            trip_order as int,
                            departure_stop_order as int,
                        ));
                        assert(!before.contains(connection)) by {
                            if before.contains(connection) {
                                let k = choose|k: int| 0 <= k < before.len() && before[k] == connection;
                                assert(hop_before(
                                    before[k].trip.route_idx as int,
                                    before[k].trip.trip_order as int,
                                    before[k].departure_stop_order as int,
                                    route_idx as int,
                                    trip_order as int,
                                    arrival_stop_order - 1,
                                ));
                            }
                        }
                    }
                    connections.push(connection);
                    proof {
                        assert forall|r: int, t: int, i: int|
                            self.valid_hop(r, t, i) && hop_before(
                                r,
                                t,
                                i,
                                route_idx as int,
                                trip_order as int,
                                arrival_stop_order as int,
                            ) implies connections@.contains(#[trigger] self.hop(r, t, i)) by {
                            if !hop_before(
                                r,
                                t,
                                i,
                                route_idx as int,
                                trip_order as int,
                                arrival_stop_order - 1,
                            ) {
                                assert(r == route_idx && t == trip_order && i
                                    == departure_stop_order);
                            }
                            lemma_push_contains(before, connection, self.hop(r, t, i));
                        }
                        assert forall|a: int, b: int|
                            0 <= a < connections@.len() && 0 <= b < connections@.len() && a
                                != b implies connections@[a] != connections@[b] by {
                            if a == before.len() {
                                assert(before[b] == connections@[b]);
                            } else if b == before.len() {
                                assert(before[a] == connections@[a]);
                            }
                        }
                    }
                    arrival_stop_order += 1;
                }
                sequential_trip_idx += 1;
                trip_order += 1;
            }
            route_idx += 1;
        }
        let ghost unsorted = connections@;
        sort_by_departure(&mut connections);
        proof {
            lemma_same_elements(unsorted, connections@);
            assert forall|k: int| 0 <= k < connections@.len() implies self.connection_wf(
                #[trigger] connections@[k],
            ) by {
                assert(connections@.contains(connections@[k]));
                assert(unsorted.contains(connections@[k]));
            }
        }
        self.connections = connections;
        proof {
            self.lemma_wf_after_connections(*old(self));
            assert forall|r: int, t: int, i: int| self.valid_hop(r, t, i) implies
                self.connections@.contains(#[trigger] self.hop(r, t, i)) by {
                assert(old(self).valid_hop(r, t, i));
                assert(self.hop(r, t, i) == old(self).hop(r, t, i));
                assert(unsorted.contains(old(self).hop(r, t, i)));
            }
        }
    }

    /// A list of hops in order of departure can take the place of the
    /// connections.
    proof fn lemma_wf_after_connections(&self, before: Network)
        requires
            before.wf(),
            *self == (Network { connections: self.connections, ..before }),
            forall|k: int|
                0 <= k < self.connections@.len() ==> before.connection_wf(
                    #[trigger] self.connections@[k],
                ),
            sorted_by_departure(self.connections@),
        ensures
            self.wf(),
    {
        assert forall|r: int| 0 <= r < self.routes@.len() implies #[trigger] self.route_wf(r) by {
            assert(before.route_wf(r));
            assert forall|i: int| 0 <= i < self.routes@[r].num_stops implies (
            #[trigger] self.route_stop(r, i)) < self.stops@.len() by {
                assert(before.route_stop(r, i) < before.stops@.len());
            }
        }
        assert forall|s: int| 0 <= s < self.stops@.len() implies #[trigger] self.stop_wf(s) by {
            assert(before.stop_wf(s));
            assert forall|k: int| 0 <= k < self.stops@[s].num_routes implies (
            #[trigger] self.stop_route(s, k)) < self.routes@.len() by {
                assert(before.stop_route(s, k) < before.routes@.len());
            }
        }
        assert forall|k: int| 0 <= k < self.connections@.len() implies self.connection_wf(
            #[trigger] self.connections@[k],
        ) by {
            assert(before.connection_wf(self.connections@[k]));
        }
    }
}

impl Network {
    /// Route `r` calls at stop `s`.
    pub open spec fn route_calls_at(&self, r: int, s: int) -> bool {
        exists|i: int| 0 <= i < self.routes@[r].num_stops && #[trigger] self.route_stop(r, i) == s
    }

    /// Stop `s` lists route `r` among its routes.
    pub open spec fn stop_lists(&self, s: int, r: int) -> bool {
        exists|k: int| 0 <= k < self.stops@[s].num_routes && #[trigger] self.stop_route(s, k) == r
    }

    /// Each stop lists the routes that call at it, and no others.
    pub open spec fn stop_routes_consistent(&self) -> bool {
        forall|s: int, r: int|
            0 <= s < self.stops@.len() && 0 <= r < self.routes@.len() ==> (#[trigger] self.stop_lists(
                s,
                r,
            ) <==> self.route_calls_at(r, s))
    }

    /// Each stop lists its routes in their order.
    pub open spec fn stop_routes_sorted(&self) -> bool {
        forall|s: int, k: int, l: int|
            0 <= s < self.stops@.len() && 0 <= k < l < self.stops@[s].num_routes
                ==> #[trigger] self.stop_route(s, k) <= #[trigger] self.stop_route(s, l)
    }

    /// The trips of each route are in the order of their arrival at the
    /// route's first stop.
    pub open spec fn ordered_at_first_stop(&self) -> bool {
        forall|r: int, a: int, b: int|
            0 <= r < self.routes@.len() && 0 <= a < b < self.routes@[r].num_trips
                ==> #[trigger] self.arrival(r, a, 0) <= #[trigger] self.arrival(r, b, 0)
    }
}

impl Network {
    /// No trip is at a stop before it has left an earlier one.
    pub open spec fn time_consistent(&self) -> bool {
        forall|r: int, t: int, i: int, j: int|
            0 <= r < self.routes@.len() && 0 <= t < self.routes@[r].num_trips && 0 <= i < j
                < self.routes@[r].num_stops ==> #[trigger] self.departure(r, t, i)
                <= #[trigger] self.arrival(r, t, j)
    }

    /// No trip of a route overtakes another: at every stop of the route, an
    /// earlier trip neither arrives nor leaves after a later one.
    pub open spec fn no_overtaking(&self) -> bool {
        forall|r: int, a: int, b: int, i: int|
            0 <= r < self.routes@.len() && 0 <= a < b < self.routes@[r].num_trips && 0 <= i
                < self.routes@[r].num_stops ==> (#[trigger] self.stop_time(r, a, i)).departure_time
                <= (#[trigger] self.stop_time(r, b, i)).departure_time && self.stop_time(
                r,
                a,
                i,
            ).arrival_time <= self.stop_time(r, b, i).arrival_time
    }
}

} // verus!
