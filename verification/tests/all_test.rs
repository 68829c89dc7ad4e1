use std::time::Instant;

use open_location_code::{
    decode, encode, encode_integers, is_full, is_short, is_valid, point_to_integers,
    recover_nearest, shorten, Point,
};
use rand::random_range;

const UNITS: f64 = 51_200_000_000.0;

/// Degrees as whole units, rounded down.
fn units(degrees: f64) -> i64 {
    (degrees * UNITS).floor() as i64
}

/// The position at the given longitude and latitude in degrees.
fn point(lng: f64, lat: f64) -> Point {
    Point::new(units(lng), units(lat))
}

/// Units as degrees.
fn degrees(value: i64) -> f64 {
    value as f64 / UNITS
}

/// code, valid, short, full
fn validity_rows() -> Vec<(&'static str, bool, bool, bool)> {
    vec![
        ("8FWC2345+G6", true, false, true),
        ("8FWC2345+G6G", true, false, true),
        ("8fwc2345+", true, false, true),
        ("8FWCX400+", true, false, true),
        ("WC2345+G6g", true, true, false),
        ("2345+G6", true, true, false),
        ("45+G6", true, true, false),
        ("+G6", true, true, false),
        ("G+", false, false, false),
        ("+", false, false, false),
        ("8FWC2345+G", false, false, false),
        ("8FWC2_45+G6", false, false, false),
        ("8FWC2\u{3b7}45+G6", false, false, false),
        ("8FWC2345+G6+", false, false, false),
        ("8FWC2345G6+", false, false, false),
        ("8FWC2300+G6", false, false, false),
        ("WC2300+G6g", false, false, false),
        ("WC2345+G", false, false, false),
        ("WC2300+", false, false, false),
        ("849VGJQF+VX7QR3J", true, false, true),
        ("849VGJQF+VX7QR3U", false, false, false),
        ("849VGJQF+VX7QR3JW", true, false, true),
        ("849VGJQF+VX7QR3JU", false, false, false),
    ]
}

/// code, length, south, west, north, east
fn decoding_rows() -> Vec<(&'static str, usize, f64, f64, f64, f64)> {
    vec![
        ("7FG49Q00+", 6, 20.35, 2.75, 20.4, 2.8),
        ("7FG49QCJ+2V", 10, 20.37, 2.782125, 20.370125, 2.78225),
        ("7FG49QCJ+2VX", 11, 20.3701, 2.78221875, 20.370125, 2.78225),
        ("7FG49QCJ+2VXGJ", 13, 20.370113, 2.782234375, 20.370114, 2.78223632813),
        ("8FVC2222+22", 10, 47.0, 8.0, 47.000125, 8.000125),
        ("4VCPPQGP+Q9", 10, -41.273125, 174.785875, -41.273, 174.786),
        ("62G20000+", 4, 0.0, -180.0, 1.0, -179.0),
        ("22220000+", 4, -90.0, -180.0, -89.0, -179.0),
        ("7FG40000+", 4, 20.0, 2.0, 21.0, 3.0),
        ("22222222+22", 10, -90.0, -180.0, -89.999875, -179.999875),
        ("6VGX0000+", 4, 0.0, 179.0, 1.0, 180.0),
        ("6FH32222+222", 11, 1.0, 1.0, 1.000025, 1.00003125),
        ("CFX30000+", 4, 89.0, 1.0, 90.0, 2.0),
        ("62H20000+", 4, 1.0, -180.0, 2.0, -179.0),
        ("62H30000+", 4, 1.0, -179.0, 2.0, -178.0),
        ("CFX3X2X2+X2", 10, 89.999875, 1.0, 90.0, 1.000125),
    ]
}

/// latitude, longitude, latitude steps, longitude steps, length, code
fn encoding_rows() -> Vec<(f64, f64, i64, i64, usize, &'static str)> {
    vec![
        (20.375, 2.775, 2759375000, 1497292800, 6, "7FG49Q00+"),
        (20.3700625, 2.7821875, 2759251562, 1497351680, 10, "7FG49QCJ+2V"),
        (20.3701125, 2.782234375, 2759252812, 1497352064, 11, "7FG49QCJ+2VX"),
        (20.3701135, 2.78223535156, 2759252837, 1497352071, 13, "7FG49QCJ+2VXGJ"),
        (47.0000625, 8.0000625, 3425001562, 1540096512, 10, "8FVC2222+22"),
        (-41.2730625, 174.7859375, 1218173437, 2906406400, 10, "4VCPPQGP+Q9"),
        (0.5, -179.5, 2262500000, 4096000, 4, "62G20000+"),
        (-89.5, -179.5, 12500000, 4096000, 4, "22220000+"),
        (20.5, 2.5, 2762500000, 1495040000, 4, "7FG40000+"),
        (-89.9999375, -179.9999375, 1562, 512, 10, "22222222+22"),
        (0.5, 179.5, 2262500000, 2945024000, 4, "6VGX0000+"),
        (1.0, 1.0, 2275000000, 1482752000, 11, "6FH32222+222"),
        (1.0, 180.0, 2275000000, 0, 4, "62H20000+"),
        (1.0, 181.0, 2275000000, 8192000, 4, "62H30000+"),
        (1.2, 3.4, 2280000000, 1502412800, 10, "6FH56C22+22"),
        (37.539669125, -122.375069724, 3188491728, 472063428, 15, "849VGJQF+VX7QR3J"),
        (37.539669125, -122.375069724, 3188491728, 472063428, 16, "849VGJQF+VX7QR3J"),
    ]
}

/// latitude, longitude, length, code: positions on and beyond the north pole
fn polar_rows() -> Vec<(f64, f64, usize, &'static str)> {
    vec![
        (90.0, 1.0, 4, "CFX30000+"),
        (92.0, 1.0, 4, "CFX30000+"),
        (90.0, 1.0, 10, "CFX3X2X2+X2"),
    ]
}

/// full code, latitude, longitude, short code, kind: B both ways, S shorten, R recover
fn short_code_rows() -> Vec<(&'static str, f64, f64, &'static str, &'static str)> {
    vec![
        ("9C3W9QCJ+2VX", 51.3701125, -1.217765625, "+2VX", "B"),
        ("9C3W9QCJ+2VX", 51.3708675, -1.217765625, "CJ+2VX", "B"),
        ("9C3W9QCJ+2VX", 51.3693575, -1.217765625, "CJ+2VX", "B"),
        ("9C3W9QCJ+2VX", 51.3701125, -1.218520625, "CJ+2VX", "B"),
        ("9C3W9QCJ+2VX", 51.3701125, -1.217010625, "CJ+2VX", "B"),
        ("9C3W9QCJ+2VX", 51.3852125, -1.217765625, "9QCJ+2VX", "B"),
        ("9C3W9QCJ+2VX", 51.3550125, -1.217765625, "9QCJ+2VX", "B"),
        ("9C3W9QCJ+2VX", 51.3701125, -1.232865625, "9QCJ+2VX", "B"),
        ("9C3W9QCJ+2VX", 51.3701125, -1.202665625, "9QCJ+2VX", "B"),
        ("8FJFW222+", 42.899, 9.012, "22+", "R"),
        ("796RXG22+", 14.95125, -23.5001, "22+", "R"),
        ("8FVC2GGG+GG", 46.976, 8.526, "2GGG+GG", "R"),
        ("8FRCXGGG+GG", 47.026, 8.526, "XGGG+GG", "R"),
        ("8FR9GXGG+GG", 46.526, 8.026, "GXGG+GG", "R"),
        ("8FRCG2GG+GG", 46.526, 7.976, "G2GG+GG", "R"),
        ("CFX22222+22", 89.6, 0.0, "2222+22", "R"),
        ("2CXXXXXX+XX", -81.0, 0.0, "XXXXXX+XX", "R"),
    ]
}

#[test]
fn is_valid_test() {
    let mut tested = 0;
    for (code, valid, short, full) in validity_rows() {
        assert_eq!(is_valid(code), valid, "valid for code: {}", code);
        assert_eq!(is_short(code), short, "short for code: {}", code);
        assert_eq!(is_full(code), full, "full for code: {}", code);

        tested += 1;
    }
    assert!(tested > 0);
}

#[test]
fn decode_test() {
    let mut tested = 0;
    for (code, len, latlo, lnglo, lathi, lnghi) in decoding_rows() {
        let codearea = decode(code).unwrap();
        assert_eq!(codearea.code_length, len, "code length");
        assert!((latlo - degrees(codearea.south)).abs() < 1e-10f64);
        assert!((lathi - degrees(codearea.north)).abs() < 1e-10f64);
        assert!((lnglo - degrees(codearea.west)).abs() < 1e-10f64);
        assert!((lnghi - degrees(codearea.east)).abs() < 1e-10f64);

        tested += 1;
    }
    assert!(tested > 0);
}

#[test]
fn encode_test() {
    let mut tested = 0;
    let mut errors = 0;
    // Positions given in degrees are rounded when they are read: allow a small
    // proportion of codes to differ.
    let allowed_error_rate = 0.05;
    let mut rows: Vec<(f64, f64, usize, &'static str)> = polar_rows();
    for (lat, lng, _, _, len, code) in encoding_rows() {
        rows.push((lat, lng, len, code));
    }
    for (lat, lng, len, code) in rows {
        let got = encode(point(lng, lat), len);
        if got != code {
            errors += 1;
            println!(
                "encode(Point::new({}, {}), {}) want {}, got {}",
                lng, lat, len, code, got
            );
        }

        tested += 1;
    }
    assert!(
        errors as f32 / tested as f32 <= allowed_error_rate,
        "too many encoding errors ({})",
        errors
    );
    assert!(tested > 0);
}

#[test]
fn point_to_integers_test() {
    let mut tested = 0;
    for (lat_deg, lng_deg, lat_int, lng_int, len, _) in encoding_rows() {
        let (got_lat, got_lng) = point_to_integers(point(lng_deg, lat_deg), len);
        assert!(
            got_lat >= lat_int - 1 && got_lat <= lat_int,
            "converting lat={}, want={}, got={}",
            lat_deg,
            lat_int,
            got_lat
        );
        assert!(
            got_lng >= lng_int - 1 && got_lng <= lng_int,
            "converting lng={}, want={}, got={}",
            lng_deg,
            lng_int,
            got_lng
        );

        tested += 1;
    }
    assert!(tested > 0);
}

#[test]
fn encode_integers_test() {
    let mut tested = 0;
    for (_, _, lat, lng, len, code) in encoding_rows() {
        assert_eq!(
            encode_integers(lat, lng, len),
            code,
            "encoding lat={},lng={},len={}",
            lat,
            lng,
            len
        );

        tested += 1;
    }
    assert!(tested > 0);
}

#[test]
fn shorten_recovery_test() {
    let mut tested = 0;
    for (full_code, lat, lng, short_code, test_type) in short_code_rows() {
        if test_type == "B" || test_type == "S" {
            assert_eq!(
                shorten(full_code, point(lng, lat)).unwrap(),
                short_code,
                "shorten"
            );
        }
        if test_type == "B" || test_type == "R" {
            assert_eq!(
                recover_nearest(short_code, point(lng, lat)),
                Ok(full_code.to_string()),
                "recover"
            );
        }

        tested += 1;
    }
    assert!(tested > 0);
}

#[test]
fn benchmark_test() {
    struct BenchmarkData {
        lat: f64,
        lng: f64,
        len: usize,
    }

    // Create the benchmark data - coordinates and lengths for encoding, codes for decoding.
    let loops = 100000;
    let mut bd: Vec<BenchmarkData> = Vec::new();
    for _i in 0..loops {
        let lat = random_range(-90.0..90.0);
        let lng = random_range(-180.0..180.0);
        let mut len = random_range(2..15);
        // Make sure the length is even if it's less than 10.
        if len < 10 && len % 2 == 1 {
            len += 1;
        }
        let b = BenchmarkData {
            lat: lat,
            lng: lng,
            len: len,
        };
        bd.push(b);
    }

    // Do the encode benchmark.
    // Get the current time, loop through the benchmark data, print the time.
    let mut codes: Vec<String> = Vec::new();
    let mut now = Instant::now();
    for b in &bd {
        codes.push(encode(point(b.lng, b.lat), b.len));
    }
    let enc_duration = now.elapsed().as_secs() * 1000000 + now.elapsed().subsec_micros() as u64;

    // Do the decode benchmark.
    // Get the current time, loop through the benchmark data, print the time.
    now = Instant::now();
    for c in codes {
        let _c = decode(&c);
    }
    let dec_duration = now.elapsed().as_secs() * 1000000 + now.elapsed().subsec_micros() as u64;
    // Output.
    println!(
        "Encoding benchmark: {} loops, total time {} usec, {} usec per encode",
        loops,
        enc_duration,
        enc_duration as f64 / loops as f64
    );
    println!(
        "Decoding benchmark: {} loops, total time {} usec, {} usec per decode",
        loops,
        dec_duration,
        dec_duration as f64 / loops as f64
    );
}
