use photorg::cities::{Dataset, Place, HEADER};
use photorg::config::LocationDepth;
use photorg::geocode::{country_name, Locator, COUNTRIES};
use photorg::metadata::Gps;
use photorg::nearest::{Look, Search};

fn gps(lat: f32, lon: f32) -> Gps {
    Gps {
        lat_bits: lat.to_bits(),
        lon_bits: lon.to_bits(),
        cell_lat: (lat * 1000.0).round() as i32,
        cell_lon: (lon * 1000.0).round() as i32,
    }
}

struct City {
    lat: f32,
    lon: f32,
    cc: &'static str,
    region: u16,
    name: &'static str,
}

const fn city(lat: f32, lon: f32, cc: &'static str, region: u16, name: &'static str) -> City {
    City {
        lat,
        lon,
        cc,
        region,
        name,
    }
}

/// Puts cities in the order of the tree: the median of a range at its midpoint,
/// split on latitude at even depths.
fn lay_out(mut cities: Vec<City>, lat: bool) -> Vec<City> {
    if cities.len() <= 1 {
        return cities;
    }
    cities.sort_by(|a, b| {
        if lat {
            a.lat.total_cmp(&b.lat)
        } else {
            a.lon.total_cmp(&b.lon)
        }
    });
    let mid = cities.len() / 2;
    let mut right = cities.split_off(mid);
    let rest = right.split_off(1);
    let mut out = lay_out(cities, !lat);
    out.append(&mut right);
    out.append(&mut lay_out(rest, !lat));
    out
}

fn blob() -> Vec<u8> {
    let regions = ["City of Zagreb", "New South Wales", "New York"];
    let cities = lay_out(
        vec![
            city(45.815, 15.982, "HR", 0, "Zagreb"),
            city(-33.87, 151.21, "AU", 1, "Sydney"),
            city(40.71, -74.0, "US", 2, "New York City"),
            city(45.33, 14.44, "HR", 0, "Rijeka"),
            city(43.51, 16.44, "HR", 0, "Split"),
        ],
        true,
    );
    let mut names = String::new();
    let mut records: Vec<u8> = Vec::new();
    for c in &cities {
        records.extend(c.lat.to_le_bytes());
        records.extend(c.lon.to_le_bytes());
        records.extend(c.cc.as_bytes());
        records.extend(c.region.to_le_bytes());
        records.extend((names.len() as u32).to_le_bytes());
        records.push(c.name.len() as u8);
        names.push_str(c.name);
    }
    let region_text: String = regions.concat();
    let mut b: Vec<u8> = b"PGC1".to_vec();
    b.extend((cities.len() as u32).to_le_bytes());
    b.extend((regions.len() as u32).to_le_bytes());
    b.extend((names.len() as u32).to_le_bytes());
    b.extend((region_text.len() as u32).to_le_bytes());
    b.extend(records);
    let mut at = 0u32;
    b.extend(at.to_le_bytes());
    for r in regions {
        at += r.len() as u32;
        b.extend(at.to_le_bytes());
    }
    b.extend(region_text.as_bytes());
    b.extend(names.as_bytes());
    b
}

fn point(data: &Dataset, i: usize) -> (f32, f32) {
    let (lat, lon) = data.coords(i);
    (f32::from_bits(lat), f32::from_bits(lon))
}

fn distance(data: &Dataset, i: usize, lat: f32, lon: f32) -> f32 {
    let (plat, plon) = point(data, i);
    (plat - lat).powi(2) + (plon - lon).powi(2)
}

fn nearest(data: &Dataset, lat: f32, lon: f32) -> Option<usize> {
    let mut search = Search::new(data.count());
    let reach = |best: Option<usize>| best.map_or(f32::INFINITY, |b| distance(data, b, lat, lon));
    let delta = |at: usize, by_lat: bool| {
        let (plat, plon) = point(data, at);
        if by_lat {
            lat - plat
        } else {
            lon - plon
        }
    };
    loop {
        match search.look() {
            Look::Point { at, lat: by_lat, best } => {
                let closer = distance(data, at, lat, lon) < reach(best);
                search.point(closer, delta(at, by_lat) < 0.0);
            }
            Look::Line { at, lat: by_lat, best } => {
                let d = delta(at, by_lat);
                search.line(d * d < reach(best));
            }
            Look::Found(best) => return best,
        }
    }
}

fn place_at(lat: f32, lon: f32) -> Option<Place> {
    let data = Dataset::load(blob()).unwrap();
    nearest(&data, lat, lon).and_then(|i| data.place(i))
}

#[test]
fn country_table_is_sorted_for_binary_search() {
    assert!(COUNTRIES.windows(2).all(|w| w[0].0 < w[1].0));
}

#[test]
fn maps_codes_to_names_and_passes_unknowns_through() {
    assert_eq!(country_name("hr").as_deref(), Some("Croatia"));
    assert_eq!(country_name("ZZ").as_deref(), Some("ZZ"));
    assert_eq!(country_name("  "), None);
}

#[test]
fn resolves_zagreb_to_croatia() {
    let mut loc = Locator::new(LocationDepth::Region);
    let found = loc
        .lookup(&gps(45.815, 15.982), place_at(45.815, 15.982))
        .unwrap();
    assert_eq!(found.country.as_deref(), Some("Croatia"));
    assert!(found.region.is_some());
    assert_eq!(found.city, None);
}

#[test]
fn nearby_coordinates_hit_the_cache() {
    let mut loc = Locator::new(LocationDepth::City);
    loc.lookup(&gps(45.8150, 15.9820), place_at(45.8150, 15.9820));
    loc.lookup(&gps(45.81501, 15.98201), None);
    assert_eq!(loc.cached_queries(), 1);
    assert_eq!(
        loc.cached(&gps(45.815, 15.982)).unwrap().unwrap().city.as_deref(),
        Some("Zagreb")
    );
}

#[test]
fn hemispheres_are_not_mirrored() {
    let mut loc = Locator::new(LocationDepth::Country);
    assert_eq!(
        loc.lookup(&gps(-33.87, 151.21), place_at(-33.87, 151.21))
            .unwrap()
            .country
            .as_deref(),
        Some("Australia")
    );
    assert_eq!(
        loc.lookup(&gps(40.71, -74.0), place_at(40.71, -74.0))
            .unwrap()
            .country
            .as_deref(),
        Some("United States")
    );
}

#[test]
fn every_record_resolves_to_valid_text() {
    let data = Dataset::load(blob()).unwrap();
    assert_eq!(data.count(), 5);
    for i in 0..data.count() {
        let (lat, lon) = point(&data, i);
        assert!((-90.0..=90.0).contains(&lat) && (-180.0..=180.0).contains(&lon));
        let place = data.place(i).unwrap();
        assert_eq!(place.cc.len(), 2);
        assert!(!place.name.is_empty());
    }
}

#[test]
fn the_tree_agrees_with_a_linear_scan() {
    let data = Dataset::load(blob()).unwrap();
    for &(lat, lon) in &[
        (45.815, 15.982),
        (-33.87, 151.21),
        (40.71, -74.0),
        (78.22, 15.65),
        (0.0, 0.0),
        (-54.8, -68.3),
        (44.0, 16.0),
    ] {
        let mut brute = (f32::INFINITY, usize::MAX);
        for i in 0..data.count() {
            let d = distance(&data, i, lat, lon);
            if d < brute.0 {
                brute = (d, i);
            }
        }
        let found = nearest(&data, lat, lon).unwrap();
        assert_eq!(
            data.coords(found),
            data.coords(brute.1),
            "wrong neighbour for ({lat}, {lon})"
        );
    }
}

#[test]
fn rejects_a_truncated_blob() {
    let whole = blob();
    assert!(Dataset::load(whole[..HEADER + 3].to_vec()).is_none());
    assert!(Dataset::load(b"nope".to_vec()).is_none());
    assert!(Dataset::load(whole).is_some());
}

#[test]
fn an_empty_search_finds_nothing() {
    assert!(matches!(Search::new(0).look(), Look::Found(None)));
}

#[test]
fn a_point_without_a_place_has_no_names() {
    let mut loc = Locator::new(LocationDepth::City);
    assert!(loc.lookup(&gps(0.0, 0.5), None).is_none());
    assert_eq!(loc.cached_queries(), 1);
}
