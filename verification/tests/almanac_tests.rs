use advent2023::almanac::{Almanac, Range, RangeMap};

fn map(rows: &[(u32, u32, u32)]) -> RangeMap {
    RangeMap(
        rows.iter()
            .map(|(d, s, l)| Range { destination_start: *d, source_start: *s, length: *l })
            .collect(),
    )
}

fn almanac() -> Almanac {
    Almanac {
        seeds: vec![79, 14, 55, 13],
        seed_to_soil: map(&[(50, 98, 2), (52, 50, 48)]),
        soil_to_fertilizer: map(&[(0, 15, 37), (37, 52, 2), (39, 0, 15)]),
        fertilizer_to_water: map(&[(49, 53, 8), (0, 11, 42), (42, 0, 7), (57, 7, 4)]),
        water_to_light: map(&[(88, 18, 7), (18, 25, 70)]),
        light_to_temperature: map(&[(45, 77, 23), (81, 45, 19), (68, 64, 13)]),
        temperature_to_humidity: map(&[(0, 69, 1), (1, 0, 69)]),
        humidity_to_location: map(&[(60, 56, 37), (56, 93, 4)]),
    }
}

#[test]
fn lowest_location_is_35() {
    assert_eq!(almanac().lowest_location(), 35);
}

#[test]
fn lowest_location_of_the_seed_ranges_is_46() {
    let a = almanac();
    let low = a.lowest_in_range(79, 14).min(a.lowest_in_range(55, 13));
    assert_eq!(low, 46);
}

#[test]
fn seeds_map_to_their_locations() {
    let a = almanac();
    assert_eq!(a.seed_to_destination(79), 82);
    assert_eq!(a.seed_to_destination(14), 43);
    assert_eq!(a.seed_to_destination(55), 86);
    assert_eq!(a.seed_to_destination(13), 35);
}

#[test]
fn ranges_translate_their_sources_only() {
    let r = Range { destination_start: 50, source_start: 98, length: 2 };
    assert!(!r.contains_source(97));
    assert!(r.contains_source(98));
    assert!(r.contains_source(99));
    assert!(!r.contains_source(100));
    assert_eq!(r.translate(99), 51);
    let m = map(&[(50, 98, 2), (52, 50, 48)]);
    assert_eq!(m.translate_value(98), 50);
    assert_eq!(m.translate_value(53), 55);
    assert_eq!(m.translate_value(10), 10);
    let edge = Range { destination_start: 0, source_start: u32::MAX, length: 1 };
    assert!(edge.contains_source(u32::MAX));
    assert_eq!(edge.translate(u32::MAX), 0);
}

#[test]
fn the_first_range_that_fits_wins() {
    let m = map(&[(100, 0, 10), (200, 5, 10)]);
    assert_eq!(m.translate_value(7), 107);
    assert_eq!(m.translate_value(12), 207);
    assert_eq!(almanac().lowest_in_range(5, 0), u32::MAX);
}
