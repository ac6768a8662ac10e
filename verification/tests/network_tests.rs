use chrono::{Datelike, NaiveDate};
use raptor::builder::BuildError;
use raptor::feed::{
    does_trip_run, service_runs_on, Calendar, CalendarDate, Direction, Feed, FeedLine, FeedStop,
    FeedStopTime, FeedTrip, ServiceDate,
};
use raptor::journey::{Boarding, Connection, Journey, JourneyError, JourneyPreferences, TauEntry};
use raptor::multicriteria::Label;
use raptor::network::{Colour, GlobalTripIndex, Network, Route, Stop, StopTime};
use raptor::raptor::{earliest_trip, MarkedStops};
use raptor::utils::parse_time;
use raptor::{csa_query, mc_raptor_query, raptor_query};

const CHELTENHAM: usize = 0;
const SOUTHLAND: usize = 1;
const FLINDERS: usize = 2;
const CLIFTON_HILL: usize = 3;
const GREENSBOROUGH: usize = 4;
const ISLAND: usize = 5;

fn day(y: i32, m: u32, d: u32) -> ServiceDate {
    ServiceDate { days: NaiveDate::from_ymd_opt(y, m, d).unwrap().num_days_from_ce() }
}

// A Friday.
fn travel_day() -> ServiceDate {
    day(2024, 5, 10)
}

fn time(text: &str) -> u32 {
    parse_time(text).unwrap()
}

fn call(stop: usize, arrival: &str, departure: &str) -> FeedStopTime {
    FeedStopTime { stop, arrival_time: time(arrival), departure_time: time(departure) }
}

fn trip(id: &str, line: &str, service: &str, direction: Option<Direction>, calls: Vec<FeedStopTime>) -> FeedTrip {
    FeedTrip {
        id: id.to_string(),
        route_id: line.to_string(),
        service_id: service.to_string(),
        direction,
        stop_times: calls,
    }
}

fn calendar(id: &str, days: [bool; 7], from: ServiceDate, to: ServiceDate) -> Calendar {
    Calendar {
        service_id: id.to_string(),
        monday: days[0],
        tuesday: days[1],
        wednesday: days[2],
        thursday: days[3],
        friday: days[4],
        saturday: days[5],
        sunday: days[6],
        start_date: from,
        end_date: to,
    }
}

fn example_feed() -> Feed {
    let stops = vec![
        FeedStop { id: "19866".to_string(), name: "Cheltenham Railway Station (Cheltenham)".to_string() },
        FeedStop { id: "19867".to_string(), name: "Southland Railway Station (Cheltenham)".to_string() },
        FeedStop { id: "19854".to_string(), name: "Flinders Street Railway Station (Melbourne City)".to_string() },
        FeedStop { id: "19968".to_string(), name: "Clifton Hill Railway Station (Clifton Hill)".to_string() },
        FeedStop { id: "19995".to_string(), name: "Greensborough Railway Station (Greensborough)".to_string() },
        FeedStop { id: "1".to_string(), name: "Island".to_string() },
    ];
    let lines = vec![
        FeedLine {
            id: "2-FKN".to_string(),
            short_name: Some("Frankston".to_string()),
            long_name: Some("Frankston - City".to_string()),
            colour: Colour { r: 2, g: 140, b: 73 },
        },
        FeedLine {
            id: "2-HBE".to_string(),
            short_name: None,
            long_name: Some("Hurstbridge - City".to_string()),
            colour: Colour { r: 190, g: 16, b: 20 },
        },
    ];
    let inbound = Some(Direction::Inbound);
    let outbound = Some(Direction::Outbound);
    let trips = vec![
        // Given out of order: the network sorts them.
        trip("F3", "2-FKN", "XD", inbound, vec![
            call(SOUTHLAND, "08:40:00", "08:40:00"),
            call(CHELTENHAM, "08:50:00", "08:50:00"),
            call(FLINDERS, "09:30:00", "09:30:00"),
        ]),
        trip("F1", "2-FKN", "WK", inbound, vec![
            call(SOUTHLAND, "08:00:00", "08:00:00"),
            call(CHELTENHAM, "08:10:00", "08:11:00"),
            call(FLINDERS, "08:50:00", "08:50:00"),
        ]),
        trip("H1", "2-HBE", "WK", outbound, vec![
            call(FLINDERS, "09:00:00", "09:00:00"),
            call(CLIFTON_HILL, "09:15:00", "09:15:00"),
            call(GREENSBOROUGH, "09:45:00", "09:45:00"),
        ]),
        trip("F2", "2-FKN", "WK", inbound, vec![
            call(SOUTHLAND, "08:20:00", "08:20:00"),
            call(CHELTENHAM, "08:30:00", "08:30:00"),
            call(FLINDERS, "09:10:00", "09:10:00"),
        ]),
        // Leaves Flinders Street two minutes after F2 is there: too early
        // for a change that takes three.
        trip("H2", "2-HBE", "WK", None, vec![
            call(FLINDERS, "09:12:00", "09:12:00"),
            call(CLIFTON_HILL, "09:27:00", "09:27:00"),
            call(GREENSBOROUGH, "09:57:00", "09:57:00"),
        ]),
        trip("H3", "2-HBE", "WK", outbound, vec![
            call(FLINDERS, "09:20:00", "09:20:00"),
            call(CLIFTON_HILL, "09:35:00", "09:35:00"),
            call(GREENSBOROUGH, "10:05:00", "10:05:00"),
        ]),
        // Runs on Sundays only.
        trip("H0", "2-HBE", "SU", outbound, vec![
            call(FLINDERS, "09:14:00", "09:14:00"),
            call(CLIFTON_HILL, "09:20:00", "09:20:00"),
            call(GREENSBOROUGH, "09:30:00", "09:30:00"),
        ]),
        // The same stops the other way round.
        trip("G1", "2-HBE", "WK", inbound, vec![
            call(GREENSBOROUGH, "07:00:00", "07:00:00"),
            call(CLIFTON_HILL, "07:30:00", "07:30:00"),
            call(FLINDERS, "07:45:00", "07:45:00"),
        ]),
        // An express that skips Clifton Hill is a route of its own.
        trip("HX", "2-HBE", "WK", outbound, vec![
            call(FLINDERS, "11:00:00", "11:00:00"),
            call(GREENSBOROUGH, "11:30:00", "11:30:00"),
        ]),
        // Calls nowhere.
        trip("E0", "2-HBE", "WK", outbound, vec![]),
    ];
    let calendars = vec![
        calendar("WK", [true, true, true, true, true, false, false], day(2024, 1, 1), day(2024, 12, 31)),
        calendar("SU", [false, false, false, false, false, false, true], day(2024, 1, 1), day(2024, 12, 31)),
    ];
    let calendar_dates = vec![
        CalendarDate { service_id: "XD".to_string(), date: day(2024, 5, 3) },
        CalendarDate { service_id: "XD".to_string(), date: day(2024, 5, 10) },
    ];
    Feed { stops, lines, trips, calendars, calendar_dates, has_shapes: false }
}

fn example_network() -> Network {
    let mut network = Network::new(&example_feed(), travel_day(), 180).unwrap();
    network.build_connections();
    network
}

fn trip_ids(route: &Route) -> Vec<&str> {
    route.trip_ids.iter().map(|s| s.as_str()).collect()
}

fn route_with_trip<'a>(network: &'a Network, id: &str) -> (usize, &'a Route) {
    network.routes.iter().enumerate().find(|(_, r)| r.trip_ids.iter().any(|t| t == id)).unwrap()
}

// What holds of every journey that a query gives.
fn check_journey(network: &Network, journey: &Journey, start: u32, end: u32, from: u32) {
    let legs = &journey.legs;
    assert!(!legs.is_empty());
    assert_eq!(legs[0].boarded_stop, start);
    assert_eq!(legs[legs.len() - 1].arrival_stop, end);
    assert!(legs[0].boarded_time >= from);
    assert_eq!(journey.duration, legs[legs.len() - 1].arrival_time - legs[0].boarded_time);
    for leg in legs.iter() {
        let r = leg.trip.route_idx as usize;
        let t = leg.trip.trip_order as usize;
        assert_eq!(network.get_stop_in_route(r, leg.boarded_stop_order as usize), leg.boarded_stop);
        assert_eq!(network.get_stop_in_route(r, leg.arrival_stop_order as usize), leg.arrival_stop);
        assert!(leg.boarded_stop_order < leg.arrival_stop_order);
        assert_eq!(network.get_departure_time(r, t, leg.boarded_stop_order as usize), leg.boarded_time);
        assert_eq!(network.get_arrival_time(r, t, leg.arrival_stop_order as usize), leg.arrival_time);
    }
    for pair in legs.windows(2) {
        assert_eq!(pair[0].arrival_stop, pair[1].boarded_stop);
        assert!(pair[0].arrival_time <= pair[1].boarded_time);
        assert_eq!(pair[0].transfer_time, Some(pair[1].boarded_time - pair[0].arrival_time));
        if pair[0].trip != pair[1].trip {
            let transfer = network.transfer_times[pair[0].arrival_stop as usize];
            assert!(pair[1].boarded_time - pair[0].arrival_time >= transfer);
        }
    }
    assert_eq!(legs[legs.len() - 1].transfer_time, None);
}

#[test]
fn network_takes_the_stops_of_the_feed() {
    let network = example_network();
    assert_eq!(network.num_stops(), 6);
    let names: Vec<&str> = network.stops.iter().map(|s| s.name.as_str()).collect();
    assert_eq!(names, vec!["Cheltenham", "Southland", "Flinders Street", "Clifton Hill", "Greensborough", "Island"]);
    assert_eq!(network.get_stop(FLINDERS).id, "19854");
    assert_eq!(network.transfer_times, vec![180; 6]);
    assert_eq!(network.date, travel_day());
    assert!(!network.has_shapes);
}

#[test]
fn network_groups_trips_into_routes() {
    let network = Network::new(&example_feed(), travel_day(), 180).unwrap();
    assert!(network.connections.is_empty());
    // Frankston inbound, Hurstbridge outbound, Hurstbridge inbound, the express.
    assert_eq!(network.num_routes(), 4);
    assert_eq!(network.num_trips, 8);
    let (f, frankston) = route_with_trip(&network, "F1");
    assert_eq!(trip_ids(frankston), vec!["F1", "F2", "F3"]);
    assert_eq!(frankston.line, "Frankston");
    assert_eq!(frankston.colour, Colour { r: 2, g: 140, b: 73 });
    assert_eq!(frankston.get_stops(&network.route_stops), &[SOUTHLAND as u32, CHELTENHAM as u32, FLINDERS as u32]);
    assert_eq!(network.num_stops_in_route(f), 3);
    assert_eq!(network.num_trips(f), 3);
    // A trip without a direction runs outbound.
    let (h, hurstbridge) = route_with_trip(&network, "H1");
    assert_eq!(trip_ids(hurstbridge), vec!["H1", "H2", "H3"]);
    assert_eq!(hurstbridge.line, "Hurstbridge - City");
    assert_eq!(network.get_trip_id(GlobalTripIndex { route_idx: h as u32, trip_order: 1 }), "H2");
    let (_, back) = route_with_trip(&network, "G1");
    assert_eq!(trip_ids(back), vec!["G1"]);
    let (_, express) = route_with_trip(&network, "HX");
    assert_eq!(trip_ids(express), vec!["HX"]);
    assert_eq!(express.num_stops, 2);
    // The Sunday trip and the trip without calls are left out.
    assert!(network.routes.iter().all(|r| !r.trip_ids.iter().any(|t| t == "H0" || t == "E0")));
}

#[test]
fn network_holds_the_times_of_each_trip() {
    let network = example_network();
    let (f, _) = route_with_trip(&network, "F1");
    assert_eq!(network.get_arrival_time(f, 0, 1), time("08:10:00"));
    assert_eq!(network.get_departure_time(f, 0, 1), time("08:11:00"));
    assert_eq!(network.get_departure_time(f, 1, 1), time("08:30:00"));
    assert_eq!(network.get_arrival_time(f, 2, 2), time("09:30:00"));
    assert_eq!(
        network.get_trip(f, 1),
        &[
            StopTime { arrival_time: time("08:20:00"), departure_time: time("08:20:00") },
            StopTime { arrival_time: time("08:30:00"), departure_time: time("08:30:00") },
            StopTime { arrival_time: time("09:10:00"), departure_time: time("09:10:00") },
        ]
    );
    let route = &network.routes[f];
    assert_eq!(route.get_trip_range(2), route.stop_times_idx + 6..route.stop_times_idx + 9);
    assert_eq!(route.get_stop_times_index(2, 1), route.stop_times_idx + 7);
    assert_eq!(route.get_trip(2, &network.stop_times)[1].arrival_time, time("08:50:00"));
    assert_eq!(route.iter_stops(1, &network.route_stops), vec![(1, CHELTENHAM), (2, FLINDERS)]);
    assert_eq!(route.iter_stops(3, &network.route_stops), vec![]);
}

#[test]
fn trips_of_a_route_are_in_order_of_arrival_at_the_first_stop() {
    let network = example_network();
    for r in 0..network.num_routes() {
        for t in 1..network.num_trips(r) {
            assert!(network.get_arrival_time(r, t - 1, 0) <= network.get_arrival_time(r, t, 0));
            // No trip of the example overtakes another.
            for s in 0..network.num_stops_in_route(r) {
                assert!(network.get_departure_time(r, t - 1, s) <= network.get_departure_time(r, t, s));
                assert!(network.get_arrival_time(r, t - 1, s) <= network.get_arrival_time(r, t, s));
            }
        }
    }
}

#[test]
fn stops_list_the_routes_that_call_at_them() {
    let network = example_network();
    for (s, stop) in network.stops.iter().enumerate() {
        let listed = stop.get_routes(&network.stop_routes);
        for r in 0..network.num_routes() {
            let calls = network.routes[r].get_stops(&network.route_stops).contains(&(s as u32));
            assert_eq!(listed.contains(&(r as u32)), calls);
        }
    }
    assert_eq!(network.stops[FLINDERS].num_routes, 4);
    assert_eq!(network.stops[CHELTENHAM].num_routes, 1);
    assert_eq!(network.stops[ISLAND].num_routes, 0);
    let fresh = Stop::new("A", "b");
    assert_eq!((fresh.name.as_str(), fresh.id.as_str(), fresh.routes_idx, fresh.num_routes), ("A", "b", 0, 0));
}

#[test]
fn a_trip_of_an_unknown_service_stops_the_build() {
    let mut feed = example_feed();
    feed.trips[4].service_id = "nowhere".to_string();
    match Network::new(&feed, travel_day(), 180) {
        Err(BuildError::MissingService { trip_id }) => assert_eq!(trip_id, "H2"),
        _ => panic!("the build should fail"),
    }
}

#[test]
fn a_line_with_too_many_stops_stops_the_build() {
    let many = |count: usize| {
        let stops = (0..count + 1)
            .map(|i| FeedStop { id: format!("s{}", i), name: format!("Stop {} Railway Station (x)", i) })
            .collect();
        // Two trips of one line share the stops between them.
        let first = (0..count / 2).map(|i| FeedStopTime { stop: i, arrival_time: i as u32, departure_time: i as u32 }).collect();
        let second =
            (count / 2 - 5..count).map(|i| FeedStopTime { stop: i, arrival_time: i as u32, departure_time: i as u32 }).collect();
        let other = vec![FeedStopTime { stop: count, arrival_time: 0, departure_time: 0 }];
        Feed {
            stops,
            lines: vec![],
            trips: vec![
                trip("a", "901", "WK", None, first),
                trip("c", "902", "WK", None, other),
                trip("b", "901", "WK", None, second),
            ],
            calendars: vec![calendar("WK", [true; 7], day(2024, 1, 1), day(2024, 12, 31))],
            calendar_dates: vec![],
            has_shapes: true,
        }
    };
    let network = Network::new(&many(447), travel_day(), 0).unwrap();
    assert_eq!(network.num_routes(), 3);
    assert!(network.has_shapes);
    // Without the line in the feed, the trip's name for it is its label.
    assert_eq!(network.routes[0].line, "901");
    assert_eq!(network.routes[0].colour, Colour { r: 0, g: 0, b: 0 });
    match Network::new(&many(448), travel_day(), 0) {
        Err(BuildError::TooManyStopsInRoute { route_id, stops }) => {
            assert_eq!(route_id, "901");
            assert_eq!(stops.len(), 448);
            assert_eq!(stops[0], "Stop 0");
            assert_eq!(stops[447], "Stop 447");
        }
        _ => panic!("the build should fail"),
    }
    // On a day without trips nothing is too many.
    assert!(Network::new(&many(448), day(2025, 6, 1), 0).is_ok());
}

#[test]
fn the_key_of_a_trip_has_a_bit_for_each_stop_and_one_for_the_direction() {
    let feed = example_feed();
    let line = vec![FLINDERS, ISLAND, GREENSBOROUGH, CLIFTON_HILL];
    // H1 runs outbound through Flinders Street, Clifton Hill and Greensborough.
    let key = raptor::builder::trip_key(&feed, 2, &line);
    assert_eq!(key.count_ones(), 3);
    assert!(key.bit(0) && !key.bit(1) && key.bit(2) && key.bit(3));
    assert!(!key.bit(447));
    // G1 runs inbound through the same stops, the express through two of them.
    let back = raptor::builder::trip_key(&feed, 7, &line);
    assert_eq!(back.count_ones(), 4);
    assert!(back.bit(0) && back.bit(2) && back.bit(3) && back.bit(447));
    assert_ne!(key, back);
    let express = raptor::builder::trip_key(&feed, 8, &line);
    assert_eq!(express.count_ones(), 2);
    assert!(express.bit(0) && express.bit(2));
    assert_eq!(raptor::builder::trip_key(&feed, 5, &line), key);
    assert_eq!(raptor::builder::trip_key(&feed, 9, &line), raptor::bitfield::StopBitfield::ZERO);
}

#[test]
fn trips_that_differ_in_order_only_are_routes_of_their_own() {
    let mut feed = example_feed();
    feed.trips.push(trip("R1", "2-HBE", "WK", Some(Direction::Outbound), vec![
        call(CLIFTON_HILL, "12:00:00", "12:00:00"),
        call(FLINDERS, "12:15:00", "12:15:00"),
        call(GREENSBOROUGH, "12:45:00", "12:45:00"),
    ]));
    let network = Network::new(&feed, travel_day(), 180).unwrap();
    assert_eq!(network.num_routes(), 5);
    let (_, odd) = route_with_trip(&network, "R1");
    assert_eq!(trip_ids(odd), vec!["R1"]);
    assert_eq!(odd.get_stops(&network.route_stops), &[CLIFTON_HILL as u32, FLINDERS as u32, GREENSBOROUGH as u32]);
}

#[test]
fn a_journey_is_written_in_words() {
    let network = example_network();
    let journey = raptor_query(&network, CHELTENHAM as u32, time("08:30:00"), GREENSBOROUGH as u32).unwrap();
    let rule = "-----------------------------------------------";
    assert_eq!(
        journey.to_text(),
        format!(
            "{rule}\nBoard at Cheltenham at 08:30:00 (Frankston line).\nArrive at Flinders Street at 09:10:00.\n\nBoard at Flinders Street at 09:20:00 (Hurstbridge - City line).\nArrive at Greensborough at 10:05:00.\n\nTotal journey time: 95 minutes.\n{rule}\n"
        )
    );
    assert_eq!(Journey::empty(&network).to_text(), format!("{rule}\nNo journey found.\n{rule}\n"));
}

#[test]
fn services_run_by_plan_or_by_listed_days() {
    let feed = example_feed();
    let friday = travel_day();
    assert_eq!(does_trip_run(&feed, &feed.trips[1], friday), Some(true));
    assert_eq!(does_trip_run(&feed, &feed.trips[6], friday), Some(false));
    assert_eq!(does_trip_run(&feed, &feed.trips[0], friday), Some(true));
    let sunday = day(2024, 5, 12);
    assert_eq!(does_trip_run(&feed, &feed.trips[1], sunday), Some(false));
    assert_eq!(does_trip_run(&feed, &feed.trips[6], sunday), Some(true));
    assert_eq!(does_trip_run(&feed, &feed.trips[0], sunday), Some(false));
    // Outside the plan's validity.
    assert_eq!(does_trip_run(&feed, &feed.trips[1], day(2025, 1, 3)), Some(false));
    assert_eq!(does_trip_run(&feed, &feed.trips[1], day(2024, 1, 1)), Some(true));
    assert_eq!(does_trip_run(&feed, &feed.trips[1], day(2024, 12, 31)), Some(true));
    assert_eq!(does_trip_run(&feed, &feed.trips[1], day(2023, 12, 29)), Some(false));
    let stray = trip("S", "2-HBE", "nowhere", None, vec![]);
    assert_eq!(does_trip_run(&feed, &stray, friday), None);
    // A day that no calendar can hold is no day of the week.
    assert_eq!(does_trip_run(&feed, &feed.trips[1], ServiceDate { days: i32::MAX }), Some(false));
}

#[test]
fn the_day_of_the_week_decides_with_the_plan() {
    let feed = example_feed();
    let id = "WK".to_string();
    let mut date = day(2024, 5, 6);
    // Monday to Sunday.
    for (weekday, runs) in [true, true, true, true, true, false, false].into_iter().enumerate() {
        let natural = NaiveDate::from_num_days_from_ce_opt(date.days).unwrap();
        assert_eq!(natural.weekday().num_days_from_monday() as usize, weekday);
        assert_eq!(service_runs_on(&feed, &id, date, Some(weekday as u8)), Some(runs));
        assert_eq!(feed.calendars[0].valid_weekday(weekday as u8), runs);
        assert_eq!(feed.calendars[0].covers(date, Some(weekday as u8)), runs);
        assert_eq!(does_trip_run(&feed, &feed.trips[1], date), Some(runs));
        date.days += 1;
    }
    assert_eq!(service_runs_on(&feed, &id, date, None), Some(false));
    assert!(!feed.calendars[0].valid_weekday(7));
}

#[test]
fn connections_are_all_hops_in_order_of_departure() {
    let network = example_network();
    // Three routes of three stops with seven trips, and the express.
    assert_eq!(network.connections.len(), 7 * 2 + 1);
    for pair in network.connections.windows(2) {
        assert!(pair[0].departure_time <= pair[1].departure_time);
    }
    for r in 0..network.num_routes() {
        for t in 0..network.num_trips(r) {
            for s in 1..network.num_stops_in_route(r) {
                let found: Vec<&Connection> = network
                    .connections
                    .iter()
                    .filter(|c| {
                        c.trip == GlobalTripIndex { route_idx: r as u32, trip_order: t as u32 }
                            && c.departure_stop_order as usize == s - 1
                    })
                    .collect();
                assert_eq!(found.len(), 1);
                let c = found[0];
                assert_eq!(c.departure_idx, network.get_stop_in_route(r, s - 1));
                assert_eq!(c.arrival_idx, network.get_stop_in_route(r, s));
                assert_eq!(c.departure_time, network.get_departure_time(r, t, s - 1));
                assert_eq!(c.arrival_time, network.get_arrival_time(r, t, s));
            }
        }
    }
    let mut trips: Vec<u32> = network.connections.iter().map(|c| c.sequential_trip_idx).collect();
    trips.sort();
    trips.dedup();
    assert_eq!(trips, (0..8).collect::<Vec<u32>>());
    let first = network.connections[0];
    assert_eq!(
        Boarding::from(&first),
        Boarding {
            boarded_stop: first.departure_idx,
            boarded_stop_order: first.departure_stop_order,
            boarded_time: first.departure_time,
            trip: first.trip,
        }
    );
    assert_eq!(raptor::csa::first_departure_from(&network.connections, 0), 0);
    assert_eq!(raptor::csa::first_departure_from(&network.connections, time("09:12:00")), 9);
    assert_eq!(raptor::csa::first_departure_from(&network.connections, time("09:13:00")), 10);
    assert_eq!(raptor::csa::first_departure_from(&network.connections, u32::MAX), 15);
}

#[test]
fn stops_are_found_by_name_and_by_id() {
    let network = example_network();
    assert_eq!(network.get_stop_idx_from_name("Cheltenham"), Some(CHELTENHAM as u32));
    assert_eq!(network.get_stop_idx_from_name("cheltenham"), Some(CHELTENHAM as u32));
    assert_eq!(network.get_stop_idx_from_name("flinders street"), Some(FLINDERS as u32));
    assert_eq!(network.get_stop_idx_from_name("GREENSBOROUGH"), Some(GREENSBOROUGH as u32));
    assert_eq!(network.get_stop_idx_from_name("Atlantis"), None);
    assert_eq!(network.get_stop_idx("19854"), Some(FLINDERS as u32));
    assert_eq!(network.get_stop_idx("nothing"), None);
}

#[test]
fn transfer_time_of_one_stop_can_be_set() {
    let mut network = example_network();
    network.set_transfer_time_for_stop("19854", 60);
    assert_eq!(network.transfer_times, vec![180, 180, 60, 180, 180, 180]);
    // With a minute for the change, the 09:12 can be caught.
    let start = time("08:30:00");
    let journey = raptor_query(&network, CHELTENHAM as u32, start, GREENSBOROUGH as u32).unwrap();
    assert_eq!(journey.legs[1].boarded_time, time("09:12:00"));
    assert_eq!(journey.legs[1].arrival_time, time("09:57:00"));
    let journey = csa_query(&network, CHELTENHAM as u32, start, GREENSBOROUGH as u32).unwrap();
    assert_eq!(journey.legs[1].arrival_time, time("09:57:00"));
}

#[test]
fn csa_finds_the_journey_with_a_change() {
    let network = example_network();
    let start = time("08:30:00");
    let journey = csa_query(&network, CHELTENHAM as u32, start, GREENSBOROUGH as u32).unwrap();
    assert!(journey.legs.len() >= 2);
    assert_eq!(journey.legs.len(), 2);
    let last = journey.legs[journey.legs.len() - 1];
    assert_ne!(last.arrival_time, u32::MAX);
    assert_eq!(last.arrival_time, time("10:05:00"));
    assert_eq!(journey.duration, last.arrival_time - journey.legs[0].boarded_time);
    assert_eq!(journey.duration, 5700);
    assert_eq!(journey.cost, 0);
    check_journey(&network, &journey, CHELTENHAM as u32, GREENSBOROUGH as u32, start);
}

#[test]
fn raptor_finds_the_same_arrival() {
    let network = example_network();
    let start = time("08:30:00");
    let journey = raptor_query(&network, CHELTENHAM as u32, start, GREENSBOROUGH as u32).unwrap();
    let with_csa = csa_query(&network, CHELTENHAM as u32, start, GREENSBOROUGH as u32).unwrap();
    assert_eq!(journey.legs.len(), 2);
    assert_eq!(journey.legs[1].arrival_time, with_csa.legs[1].arrival_time);
    assert_eq!(journey.legs, with_csa.legs);
    assert_eq!(journey.legs[0].boarded_time, time("08:30:00"));
    assert_eq!(journey.legs[0].arrival_time, time("09:10:00"));
    assert_eq!(journey.legs[0].transfer_time, Some(600));
    assert_eq!(journey.legs[1].boarded_time, time("09:20:00"));
    assert_eq!(journey.duration, 5700);
    assert_eq!(network.get_trip_id(journey.legs[0].trip), "F2");
    assert_eq!(network.get_trip_id(journey.legs[1].trip), "H3");
    check_journey(&network, &journey, CHELTENHAM as u32, GREENSBOROUGH as u32, start);
}

#[test]
fn raptor_and_csa_agree_on_every_pair_of_stops() {
    let network = example_network();
    for from in 0..6u32 {
        for to in 0..6u32 {
            for start in [0, time("07:00:00"), time("08:11:00"), time("08:30:00"), time("09:00:00"), time("09:17:00")] {
                let a = raptor_query(&network, from, start, to);
                let b = csa_query(&network, from, start, to);
                match (a, b) {
                    (Ok(a), Ok(b)) => {
                        assert_eq!(a.legs.last().map(|l| l.arrival_time), b.legs.last().map(|l| l.arrival_time));
                        if from != to {
                            check_journey(&network, &a, from, to, start);
                            check_journey(&network, &b, from, to, start);
                        }
                    }
                    (Err(a), Err(b)) => assert_eq!(a, b),
                    _ => panic!("one found a journey from {} to {} and the other none", from, to),
                }
            }
        }
    }
}

#[test]
fn mc_raptor_without_costs_finds_the_same_arrival() {
    let network = example_network();
    let start = time("08:30:00");
    let costs = vec![0u64; network.stop_times.len()];
    let preferences = JourneyPreferences::default();
    assert_eq!(preferences, JourneyPreferences::ArrivalTime);
    let journey =
        mc_raptor_query(&network, CHELTENHAM as u32, start, GREENSBOROUGH as u32, &costs, &preferences).unwrap();
    assert!(!journey.legs.is_empty());
    assert_eq!(journey.legs[journey.legs.len() - 1].arrival_time, time("10:05:00"));
    assert_eq!(journey.cost, 0);
    check_journey(&network, &journey, CHELTENHAM as u32, GREENSBOROUGH as u32, start);
}

#[test]
fn mc_raptor_weighs_cost_against_time() {
    let network = example_network();
    let start = time("08:00:00");
    // Being on F1 is dear, being on any other trip costs one unit a stop.
    let (f, route) = route_with_trip(&network, "F1");
    let mut costs = vec![1u64; network.stop_times.len()];
    for s in 0..3 {
        costs[route.get_stop_times_index(0, s)] = 1000;
    }
    let fast = JourneyPreferences::ArrivalTime;
    let journey = mc_raptor_query(&network, SOUTHLAND as u32, start, FLINDERS as u32, &costs, &fast).unwrap();
    assert_eq!(journey.legs.len(), 1);
    assert_eq!(journey.legs[0].trip, GlobalTripIndex { route_idx: f as u32, trip_order: 0 });
    assert_eq!(journey.legs[0].arrival_time, time("08:50:00"));
    assert_eq!(journey.cost, 2000);
    // Only the first trip that can be caught is boarded at a stop, so the
    // cheap way leaves the dear trip at the next stop for the one behind it.
    let cheap = JourneyPreferences::Weighted { time_weight: 0, cost_weight: 1 };
    let journey = mc_raptor_query(&network, SOUTHLAND as u32, start, FLINDERS as u32, &costs, &cheap).unwrap();
    assert_eq!(journey.legs.len(), 2);
    assert_eq!(journey.legs[0].trip, GlobalTripIndex { route_idx: f as u32, trip_order: 0 });
    assert_eq!(journey.legs[0].arrival_stop, CHELTENHAM as u32);
    assert_eq!(journey.legs[1].trip, GlobalTripIndex { route_idx: f as u32, trip_order: 1 });
    assert_eq!(journey.legs[1].arrival_time, time("09:10:00"));
    assert_eq!(journey.cost, 1001);
    check_journey(&network, &journey, SOUTHLAND as u32, FLINDERS as u32, start);
    // A second of travel weighs as much as a unit of cost: 3000 + 2000 against 4200 + 1001.
    let both = JourneyPreferences::Weighted { time_weight: 1, cost_weight: 1 };
    let journey = mc_raptor_query(&network, SOUTHLAND as u32, start, FLINDERS as u32, &costs, &both).unwrap();
    assert_eq!(journey.legs.len(), 1);
    assert_eq!(journey.legs[0].arrival_time, time("08:50:00"));
    assert_eq!(journey.cost, 2000);
    assert_eq!(both.utility(&Label::new(time("08:50:00"), 2000), start), 5000);
    assert_eq!(both.utility(&Label::new(time("09:10:00"), 1001), start), 5201);
    assert_eq!(both.utility(&Label::new(0, 7), start), 7);
    assert_eq!(fast.utility(&Label::new(33, 7), start), 33);
}

#[test]
fn best_label_is_the_first_of_the_least_in_time() {
    let labels = [Label::new(50, 9), Label::new(10, 5), Label::new(20, 1), Label::new(10, 7)];
    let fast = JourneyPreferences::ArrivalTime;
    assert_eq!(fast.best_label(u32::MAX, &labels, 0), Some(labels[1]));
    assert_eq!(fast.best_label(10, &labels, 0), None);
    assert_eq!(fast.best_label(11, &labels, 0), Some(labels[1]));
    assert_eq!(fast.best_label(5, &[], 0), None);
    let cheap = JourneyPreferences::Weighted { time_weight: 0, cost_weight: 3 };
    assert_eq!(cheap.best_label(u32::MAX, &labels, 0), Some(labels[2]));
    assert_eq!(cheap.best_label(20, &labels, 0), Some(labels[1]));
}

#[test]
fn a_journey_to_where_one_is_has_no_legs() {
    let network = example_network();
    let start = time("08:30:00");
    let costs = vec![0u64; network.stop_times.len()];
    let c = CHELTENHAM as u32;
    for journey in [
        raptor_query(&network, c, start, c).unwrap(),
        csa_query(&network, c, start, c).unwrap(),
        mc_raptor_query(&network, c, start, c, &costs, &JourneyPreferences::default()).unwrap(),
        Journey::empty(&network),
    ] {
        assert!(journey.legs.is_empty());
        assert_eq!(journey.duration, 0);
        assert_eq!(journey.cost, 0);
    }
}

#[test]
fn no_journey_after_the_last_trip() {
    let network = example_network();
    let costs = vec![0u64; network.stop_times.len()];
    let late = time("23:59:59");
    let (c, g) = (CHELTENHAM as u32, GREENSBOROUGH as u32);
    assert!(matches!(raptor_query(&network, c, late, g), Err(JourneyError::NoJourneyFound)));
    assert!(matches!(csa_query(&network, c, late, g), Err(JourneyError::NoJourneyFound)));
    assert!(matches!(
        mc_raptor_query(&network, c, late, g, &costs, &JourneyPreferences::default()),
        Err(JourneyError::NoJourneyFound)
    ));
    // The last trip from Cheltenham leaves at 08:50:00, in time for the express.
    let journey = raptor_query(&network, c, time("08:50:00"), g).unwrap();
    assert_eq!(journey.legs[1].arrival_time, time("11:30:00"));
    assert_eq!(journey.legs[1].arrival_stop_order, 1);
    assert!(raptor_query(&network, c, time("08:50:00"), FLINDERS as u32).is_ok());
    assert!(raptor_query(&network, c, time("08:50:01"), FLINDERS as u32).is_err());
    assert!(csa_query(&network, c, time("08:50:01"), FLINDERS as u32).is_err());
    // The last trip of the day leaves Flinders Street at 11:00:00.
    assert!(raptor_query(&network, FLINDERS as u32, time("11:00:00"), g).is_ok());
    assert!(matches!(raptor_query(&network, FLINDERS as u32, time("11:00:01"), g), Err(JourneyError::NoJourneyFound)));
    assert!(matches!(csa_query(&network, FLINDERS as u32, time("11:00:01"), g), Err(JourneyError::NoJourneyFound)));
}

#[test]
fn no_journey_to_a_stop_without_routes() {
    let network = example_network();
    let costs = vec![0u64; network.stop_times.len()];
    let start = time("08:30:00");
    let (c, i) = (CHELTENHAM as u32, ISLAND as u32);
    assert!(matches!(raptor_query(&network, c, start, i), Err(JourneyError::NoJourneyFound)));
    assert!(matches!(csa_query(&network, c, start, i), Err(JourneyError::NoJourneyFound)));
    assert!(matches!(
        mc_raptor_query(&network, c, start, i, &costs, &JourneyPreferences::default()),
        Err(JourneyError::NoJourneyFound)
    ));
    assert!(matches!(raptor_query(&network, i, start, c), Err(JourneyError::NoJourneyFound)));
    // Southland lies behind Cheltenham on the only route through it.
    assert!(matches!(raptor_query(&network, c, start, SOUTHLAND as u32), Err(JourneyError::NoJourneyFound)));
}

#[test]
fn csa_needs_connections() {
    let network = Network::new(&example_feed(), travel_day(), 180).unwrap();
    let start = time("08:30:00");
    assert!(matches!(
        csa_query(&network, CHELTENHAM as u32, start, GREENSBOROUGH as u32),
        Err(JourneyError::NoJourneyFound)
    ));
    assert!(raptor_query(&network, CHELTENHAM as u32, start, GREENSBOROUGH as u32).is_ok());
}

#[test]
fn a_trip_that_leaves_at_the_start_time_can_be_boarded() {
    let network = example_network();
    let (f, _) = route_with_trip(&network, "F2");
    let at = time("08:30:00");
    assert_eq!(earliest_trip(&network, f, 1, at, 3), Some((1, at)));
    assert_eq!(earliest_trip(&network, f, 1, at + 1, 3), Some((2, time("08:50:00"))));
    assert_eq!(earliest_trip(&network, f, 1, 0, 3), Some((0, time("08:11:00"))));
    assert_eq!(earliest_trip(&network, f, 1, time("08:50:01"), 3), None);
    assert_eq!(earliest_trip(&network, f, 1, 0, 0), None);
    // Only trips before the one that is ridden are looked at.
    assert_eq!(earliest_trip(&network, f, 1, at, 1), None);
    assert_eq!(earliest_trip(&network, f, 1, 0, 2), Some((0, time("08:11:00"))));
    let journey = raptor_query(&network, CHELTENHAM as u32, at, FLINDERS as u32).unwrap();
    assert_eq!(journey.legs[0].boarded_time, at);
    let journey = csa_query(&network, CHELTENHAM as u32, at, FLINDERS as u32).unwrap();
    assert_eq!(journey.legs[0].boarded_time, at);
}

#[test]
fn a_query_gives_the_same_journey_again() {
    let network = example_network();
    let costs: Vec<u64> = (0..network.stop_times.len() as u64).map(|i| (i * 7919) % 13).collect();
    let start = time("08:00:00");
    let (s, g) = (SOUTHLAND as u32, GREENSBOROUGH as u32);
    let again = example_network();
    let first = raptor_query(&network, s, start, g).unwrap();
    let second = raptor_query(&network, s, start, g).unwrap();
    let third = raptor_query(&again, s, start, g).unwrap();
    assert_eq!(first.legs, second.legs);
    assert_eq!(first.legs, third.legs);
    assert_eq!((first.duration, first.cost), (second.duration, second.cost));
    let first = csa_query(&network, s, start, g).unwrap();
    let second = csa_query(&network, s, start, g).unwrap();
    assert_eq!(first.legs, second.legs);
    let p = JourneyPreferences::Weighted { time_weight: 1, cost_weight: 100 };
    let first = mc_raptor_query(&network, s, start, g, &costs, &p).unwrap();
    let second = mc_raptor_query(&network, s, start, g, &costs, &p).unwrap();
    assert_eq!(first.legs, second.legs);
    assert_eq!((first.duration, first.cost), (second.duration, second.cost));
}

#[test]
fn marked_stops_give_the_routes_to_scan() {
    let network = example_network();
    let mut marked = MarkedStops::new(&network);
    assert!(marked.is_empty());
    assert_eq!(marked.iter_marked_routes(&network), vec![]);
    marked.mark_stop(CHELTENHAM);
    assert!(!marked.is_empty());
    let (f, _) = route_with_trip(&network, "F1");
    assert_eq!(marked.iter_marked_routes(&network), vec![(f, 1)]);
    assert!(marked.is_empty());
    // Of several marked stops of a route the first in the route counts.
    marked.mark_stop(FLINDERS);
    marked.mark_stop(SOUTHLAND);
    marked.mark_stop(GREENSBOROUGH);
    let (h, _) = route_with_trip(&network, "H1");
    let (g, _) = route_with_trip(&network, "G1");
    let (x, _) = route_with_trip(&network, "HX");
    let mut expected = vec![(f, 0), (h, 0), (g, 0), (x, 0)];
    expected.sort();
    assert_eq!(marked.iter_marked_routes(&network), expected);
}

#[test]
fn journey_is_rebuilt_from_boardings() {
    let network = example_network();
    let (f, _) = route_with_trip(&network, "F2");
    let (h, _) = route_with_trip(&network, "H3");
    let mut tau = vec![TauEntry::default(); 6];
    assert_eq!(tau[0], TauEntry { time: u32::MAX, boarding: None });
    assert!(matches!(Journey::from_tau(&tau, &network, CHELTENHAM, GREENSBOROUGH), Err(JourneyError::NoJourneyFound)));
    let first = Boarding {
        boarded_stop: CHELTENHAM as u32,
        boarded_stop_order: 1,
        boarded_time: time("08:30:00"),
        trip: GlobalTripIndex { route_idx: f as u32, trip_order: 1 },
    };
    let second = Boarding {
        boarded_stop: FLINDERS as u32,
        boarded_stop_order: 0,
        boarded_time: time("09:20:00"),
        trip: GlobalTripIndex { route_idx: h as u32, trip_order: 2 },
    };
    tau[CHELTENHAM] = TauEntry { time: time("08:30:00"), boarding: None };
    tau[FLINDERS] = TauEntry { time: time("09:10:00"), boarding: Some(first) };
    tau[GREENSBOROUGH] = TauEntry { time: time("10:05:00"), boarding: Some(second) };
    let journey = Journey::from_tau(&tau, &network, CHELTENHAM, GREENSBOROUGH).unwrap();
    assert_eq!(journey.legs.len(), 2);
    assert_eq!(journey.legs[0].arrival_stop_order, 2);
    assert_eq!(journey.legs[1].arrival_stop_order, 2);
    assert_eq!(journey.legs[0].transfer_time, Some(600));
    assert_eq!(journey.duration, 5700);
    let route = &network.routes[h];
    assert_eq!(Journey::calculate_arrival_stop_order(route, &network, &second, CLIFTON_HILL), 1);
    // Boardings that lead round in a circle are given up after a hundred legs.
    let back = Boarding {
        boarded_stop: GREENSBOROUGH as u32,
        boarded_stop_order: 0,
        boarded_time: time("07:00:00"),
        trip: GlobalTripIndex { route_idx: route_with_trip(&network, "G1").0 as u32, trip_order: 0 },
    };
    tau[FLINDERS] = TauEntry { time: time("07:45:00"), boarding: Some(back) };
    assert!(matches!(Journey::from_tau(&tau, &network, CHELTENHAM, GREENSBOROUGH), Err(JourneyError::InfiniteLoop)));
    assert_eq!(JourneyError::InfiniteLoop.message(), "Infinite loop in journey reconstruction.");
    assert_eq!(JourneyError::NoJourneyFound.message(), "No journey found.");
    assert_eq!(JourneyError::ZeroAgents.message(), "Journey not calculated for zero agents.");
}

#[test]
fn duration_is_zero_where_the_arrival_is_before_the_boarding() {
    let network = example_network();
    let queried = raptor_query(&network, CHELTENHAM as u32, time("08:30:00"), FLINDERS as u32).unwrap();
    let mut leg = queried.legs[0];
    let journey = Journey::from(vec![leg], 5, &network);
    assert_eq!((journey.duration, journey.cost), (2400, 5));
    leg.arrival_time = leg.boarded_time - 1;
    assert_eq!(Journey::from(vec![leg], 0, &network).duration, 0);
    assert_eq!(Journey::from(vec![], 0, &network).duration, 0);
}
