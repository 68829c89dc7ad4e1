use open_location_code::codearea::midpoint;
use open_location_code::consts::{
    CODE_ALPHABET, LATITUDE_MAX, LONGITUDE_MAX, PAIR_RESOLUTIONS, UNITS_PER_DEGREE,
};
use open_location_code::coords::{
    clip_latitude, compute_latitude_precision, compute_longitude_precision, normalize_longitude,
};
use open_location_code::{
    code_value, decode, encode, encode_integers, is_full, is_short, is_valid,
    point_to_integers, prefix_by_reference, recover_nearest, shorten, CodeArea, Error, Point,
};

/// Degrees as whole units, rounded down.
fn to_units(degrees: f64) -> i64 {
    (degrees * UNITS_PER_DEGREE as f64).floor() as i64
}

/// The position at the given latitude and longitude in degrees.
fn at(lat: f64, lng: f64) -> Point {
    Point::new(to_units(lng), to_units(lat))
}

fn sample_codes() -> Vec<&'static str> {
    vec![
        "7FG49Q00+",
        "7FG40000+",
        "7F000000+",
        "7FG49QCJ+",
        "7FG49QCJ+2V",
        "7FG49QCJ+2VX",
        "7FG49QCJ+2VXG",
        "7FG49QCJ+2VXGJ",
        "7FG49QCJ+2VXGJF",
        "7FG49QCJ+2VXGJFH",
        "22222222+22",
        "CVXXXXXX+XXXXXXX",
        "4VCPPQGP+Q9",
        "849VGJQF+VX7QR3J",
    ]
}

#[test]
fn decode_then_encode_gives_the_code_back() {
    for code in sample_codes() {
        let area = decode(code).unwrap();
        assert_eq!(encode(area.center, area.code_length), code);
    }
    let area = decode("7fg49qcj+2vx").unwrap();
    assert_eq!(encode(area.center, area.code_length), "7FG49QCJ+2VX");
}

#[test]
fn decode_then_encode_beyond_the_globe_gives_another_code() {
    let area = decode("X2222222+").unwrap();
    assert!(area.south > LATITUDE_MAX);
    assert_ne!(encode(area.center, area.code_length), "X2222222+");
    let long = decode("849VGJQF+VX7QR3JW").unwrap();
    assert_eq!(long.code_length, 15);
    assert_eq!(encode(long.center, long.code_length), "849VGJQF+VX7QR3J");
}

#[test]
fn encoded_codes_are_full_codes() {
    let lengths: [usize; 10] = [2, 4, 6, 8, 10, 11, 12, 13, 14, 15];
    let mut lat = -95.0;
    while lat <= 95.0 {
        let mut lng = -370.0;
        while lng <= 370.0 {
            for len in lengths {
                let code = encode(at(lat, lng), len);
                assert!(is_valid(&code), "valid: {}", code);
                assert!(is_full(&code), "full: {}", code);
                assert!(!is_short(&code), "short: {}", code);
                assert_eq!(code.contains('0'), len < 8, "padding: {}", code);
                assert_eq!(decode(&code).unwrap().code_length, len);
            }
            lng += 36.7;
        }
        lat += 9.3;
    }
}

#[test]
fn a_string_is_no_code_or_short_or_full() {
    let strings = [
        "8FWC2345+G6", "8fwc2345+", "8FWCX400+", "WC2345+G6g", "2345+G6", "45+G6", "+G6", "G+",
        "+", "", "0", "++", "8FWC2345+G", "8FWC2_45+G6", "8FWC2345+G6+", "8FWC2345G6+",
        "8FWC2300+G6", "WC2300+", "8F00WCXX+", "00000000+", "8FWC2345", "8FWC23450+",
        "8FWC234+5", "2345+", "22+",
    ];
    for s in strings {
        assert_eq!(is_valid(s), is_short(s) || is_full(s), "{}", s);
        assert!(!(is_short(s) && is_full(s)), "{}", s);
    }
    assert!(is_short("2345+"));
    assert!(is_short("22+"));
    assert!(!is_valid(""));
    assert!(!is_valid("8FWC2345"));
    assert!(!is_valid("8FWC234+5"));
}

#[test]
fn shorten_then_recover_gives_the_code_back() {
    let codes = ["9C3W9QCJ+2VX", "7FG49QCJ+2V", "4VCPPQGP+Q9", "22222222+22", "849VGJQF+VX7QR3J"];
    let offsets = [0.0, 0.0005, -0.0005, 0.01, -0.01, 0.2, -0.2, 0.29, 0.4];
    let mut shortened = 0;
    for code in codes {
        let center = decode(code).unwrap().center;
        for dlat in offsets {
            for dlng in offsets {
                let reference = Point::new(center.lng + to_units(dlng), center.lat + to_units(dlat));
                let short = shorten(code, reference).unwrap();
                if short != code {
                    shortened += 1;
                    assert!(is_short(&short), "{}", short);
                    assert_eq!(recover_nearest(&short, reference), Ok(code.to_string()));
                }
            }
        }
    }
    assert!(shortened > 0);
}

#[test]
fn shorten_takes_eight_six_four_or_no_characters() {
    let code = "9C3W9QCJ+2VX";
    let center = decode(code).unwrap().center;
    let away = |units: i64| Point::new(center.lng, center.lat + units);
    // Three tenths of the sides of the cells of eight, six and four digits.
    let eight = 3 * PAIR_RESOLUTIONS[3] / 10;
    let six = 3 * PAIR_RESOLUTIONS[2] / 10;
    let four = 3 * PAIR_RESOLUTIONS[1] / 10;
    assert_eq!(shorten(code, away(eight - 1)).unwrap(), "+2VX");
    assert_eq!(shorten(code, away(eight)).unwrap(), "CJ+2VX");
    assert_eq!(shorten(code, away(six - 1)).unwrap(), "CJ+2VX");
    assert_eq!(shorten(code, away(-six)).unwrap(), "9QCJ+2VX");
    assert_eq!(shorten(code, away(1 - four)).unwrap(), "9QCJ+2VX");
    assert_eq!(shorten(code, away(four)).unwrap(), "9C3W9QCJ+2VX");
    let aside = Point::new(center.lng - six, center.lat);
    assert_eq!(shorten(code, aside).unwrap(), "9QCJ+2VX");
    // A whole turn more leaves the reference position where it is.
    let turned = Point::new(center.lng + 3 * 2 * LONGITUDE_MAX, center.lat);
    assert_eq!(shorten(code, turned).unwrap(), "+2VX");
}

#[test]
fn shorten_leaves_what_is_no_full_code() {
    let reference = at(51.3701125, -1.217765625);
    assert_eq!(shorten("9QCJ+2VX", reference), Ok("9QCJ+2VX".to_string()));
    assert_eq!(shorten("9qcj+2vx", reference), Ok("9qcj+2vx".to_string()));
    assert_eq!(shorten("not a code", reference), Ok("not a code".to_string()));
    assert_eq!(shorten("", reference), Ok(String::new()));
    assert_eq!(shorten("9c3w9qcj+2vx", reference), Ok("+2vx".to_string()));
}

#[test]
fn shorten_can_leave_the_separator_alone() {
    let center = decode("8FWC2345+").unwrap().center;
    let short = shorten("8FWC2345+", center).unwrap();
    assert_eq!(short, "+");
    assert_eq!(recover_nearest(&short, center), Err(Error::InvalidShortCode));
}

#[test]
fn error_kinds() {
    let reference = at(20.375, 2.775);
    assert_eq!(decode("8FWC2345+G"), Err(Error::InvalidCode));
    assert_eq!(decode("2345+G6"), Err(Error::InvalidCode));
    assert_eq!(decode(""), Err(Error::InvalidCode));
    assert_eq!(shorten("7FG49Q00+", reference), Err(Error::CannotShortenPadded));
    assert_eq!(shorten("7F000000+", reference), Err(Error::CannotShortenPadded));
    assert_eq!(recover_nearest("8FWC2345+G", reference), Err(Error::InvalidShortCode));
    assert_eq!(recover_nearest("", reference), Err(Error::InvalidShortCode));
    assert_ne!(Error::CodeTooShortToShorten, Error::CannotShortenPadded);
}

#[test]
fn recover_gives_a_full_code_back_in_capitals() {
    let far = at(0.0, 0.0);
    assert_eq!(recover_nearest("9c3w9qcj+2vx", far), Ok("9C3W9QCJ+2VX".to_string()));
    assert_eq!(recover_nearest("7fg49q00+", far), Ok("7FG49Q00+".to_string()));
    let near = at(51.3701125, -1.217765625);
    assert_eq!(recover_nearest("9qcj+2vx", near), Ok("9C3W9QCJ+2VX".to_string()));
}

#[test]
fn the_north_pole_has_a_code_that_decodes() {
    for len in [2usize, 4, 6, 8, 10, 11, 12, 13, 14, 15] {
        for lng in [-180.0, -1.0, 0.0, 1.0, 179.9] {
            let code = encode(Point::new(to_units(lng), LATITUDE_MAX), len);
            let area = decode(&code).unwrap();
            assert_eq!(area.north, LATITUDE_MAX, "{}", code);
            assert_eq!(area.code_length, len);
        }
    }
    assert_eq!(encode(Point::new(to_units(1.0), LATITUDE_MAX), 15), "CFX3X2X2+X2RRRRR");
    assert_eq!(encode(Point::new(to_units(1.0), i64::MAX), 15), "CFX3X2X2+X2RRRRR");
    // Less than 1e-10 of a degree below the pole counts as the pole, and the position is
    // lowered by a whole cell.
    assert_eq!(encode(Point::new(to_units(1.0), LATITUDE_MAX - 3), 15), "CFX3X2X2+X2RRRRJ");
    assert_eq!(encode(Point::new(to_units(1.0), LATITUDE_MAX - 3), 10), "CFX3X2X2+W2");
    assert_eq!(encode(Point::new(to_units(1.0), LATITUDE_MAX - 6), 15), "CFX3X2X2+X2RRRRR");
    assert_eq!(point_to_integers(at(90.0, 1.0), 15), (4499999999, 1482752000));
    assert_eq!(point_to_integers(at(90.0, 1.0), 4), (4475000000, 1482752000));
    assert_eq!(point_to_integers(at(-95.0, -181.0), 10), (0, 2940928000));
}

#[test]
fn encode_sample() {
    assert_eq!(encode(at(20.375, 2.775), 6), "7FG49Q00+");
    assert_eq!(encode(at(20.3700625, 2.7821875), 10), "7FG49QCJ+2V");
    assert_eq!(encode_integers(2759375000, 1497292800, 6), "7FG49Q00+");
}

#[test]
fn padding_in_the_wrong_place_is_rejected() {
    for code in [
        "7FG49Q0+", "7FG49Q000+", "7FG4900Q+", "8F00WCXX+", "00000000+", "0FG49Q00+",
        "7FG49000+", "7FG49Q00+00", "7FG49Q00+2V", "7FG49Q+00", "49Q00+", "7FG49Q00",
    ] {
        assert!(!is_valid(code), "{}", code);
        assert!(!is_short(code), "{}", code);
        assert!(!is_full(code), "{}", code);
    }
    for code in ["7FG49Q00+", "7FG40000+", "7F000000+"] {
        assert!(is_full(code), "{}", code);
    }
}

#[test]
fn decode_sample_box() {
    let area = decode("7FG49Q00+").unwrap();
    assert!(area.south < area.north);
    assert!(area.west < area.east);
    assert_eq!(area.south, 1041920000000);
    assert_eq!(area.west, 140800000000);
    assert_eq!(area.north, 1044480000000);
    assert_eq!(area.east, 143360000000);
    assert_eq!(area.center, Point::new(142080000000, 1043200000000));
    assert_eq!(area.code_length, 6);
    let resolution = PAIR_RESOLUTIONS[2];
    assert_eq!(area.north - area.south, resolution);
    assert!((area.center.lat - to_units(20.375)).abs() <= resolution);
    assert!((area.center.lng - to_units(2.775)).abs() <= resolution);
}

#[test]
fn the_length_is_brought_into_range() {
    let pt = at(20.3701135, 2.78223535156);
    assert_eq!(encode(pt, 0), "7F000000+");
    assert_eq!(encode(pt, 1), "7F000000+");
    assert_eq!(encode(pt, 2), "7F000000+");
    assert_eq!(encode(pt, 11), "7FG49QCJ+2VX");
    assert_eq!(encode(pt, 12), "7FG49QCJ+2VXG");
    assert_eq!(encode(pt, 13), "7FG49QCJ+2VXGJ");
    assert_eq!(encode(pt, 14), "7FG49QCJ+2VXGJF");
    assert_eq!(encode(pt, 15), "7FG49QCJ+2VXGJFH");
    assert_eq!(encode(pt, 16), "7FG49QCJ+2VXGJFH");
    assert_eq!(encode(pt, 100), "7FG49QCJ+2VXGJFH");
    assert_eq!(encode(pt, usize::MAX), "7FG49QCJ+2VXGJFH");
}

#[test]
fn an_odd_length_below_ten_gives_no_code() {
    let pt = at(20.3701135, 2.78223535156);
    assert_eq!(encode(pt, 3), "7FG00000+");
    assert_eq!(encode(pt, 5), "7FG49000+");
    assert_eq!(encode(pt, 7), "7FG49QC0+");
    assert_eq!(encode(pt, 9), "7FG49QCJ+2");
    for len in [3usize, 5, 7, 9] {
        assert!(!is_valid(&encode(pt, len)));
    }
}

#[test]
fn encode_integers_takes_steps_of_either_sign() {
    assert_eq!(encode_integers(0, 0, 10), "22222222+22");
    assert_eq!(encode_integers(4499999999, 2949119999, 15), "CVXXXXXX+XXXXXXX");
    assert_eq!(encode_integers(-1, -1, 15), "XXXXXXXX+XXXXXXX");
    assert_eq!(encode_integers(10_000_000_000, 3_276_800_000, 15), "22222222+2222222");
}

#[test]
fn digits_beyond_the_fifteenth_are_passed_over() {
    let long = decode("849VGJQF+VX7QR3JW").unwrap();
    let full = decode("849VGJQF+VX7QR3J").unwrap();
    assert_eq!(long, full);
    assert_eq!(long.south, 1922031058944);
    assert_eq!(long.west, -6265603575000);
    assert_eq!(long.north - long.south, 2048);
    assert_eq!(long.east - long.west, 6250);
    assert_eq!(long.center, Point::new(-6265603571875, 1922031059968));
}

#[test]
fn symbols_and_their_values() {
    for (value, symbol) in CODE_ALPHABET.iter().enumerate() {
        assert_eq!(code_value(*symbol), value);
    }
    assert_eq!(code_value('2'), 0);
    assert_eq!(code_value('C'), 8);
    assert_eq!(code_value('X'), 19);
}

#[test]
fn latitudes_and_longitudes_are_brought_into_range() {
    assert_eq!(clip_latitude(0), 0);
    assert_eq!(clip_latitude(LATITUDE_MAX), LATITUDE_MAX);
    assert_eq!(clip_latitude(LATITUDE_MAX + 1), LATITUDE_MAX);
    assert_eq!(clip_latitude(-LATITUDE_MAX - 1), -LATITUDE_MAX);
    assert_eq!(clip_latitude(i64::MIN), -LATITUDE_MAX);
    assert_eq!(clip_latitude(i64::MAX), LATITUDE_MAX);
    assert_eq!(normalize_longitude(0), 0);
    assert_eq!(normalize_longitude(LONGITUDE_MAX), -LONGITUDE_MAX);
    assert_eq!(normalize_longitude(-LONGITUDE_MAX), -LONGITUDE_MAX);
    assert_eq!(normalize_longitude(LONGITUDE_MAX - 1), LONGITUDE_MAX - 1);
    assert_eq!(normalize_longitude(-LONGITUDE_MAX - 1), LONGITUDE_MAX - 1);
    assert_eq!(normalize_longitude(3 * LONGITUDE_MAX + 5), -LONGITUDE_MAX + 5);
    assert_eq!(normalize_longitude(to_units(181.0)), to_units(-179.0));
    let max = normalize_longitude(i64::MAX);
    assert!(-LONGITUDE_MAX <= max && max < LONGITUDE_MAX);
    assert_eq!((i64::MAX as i128 - max as i128) % (2 * LONGITUDE_MAX as i128), 0);
    let min = normalize_longitude(i64::MIN);
    assert!(-LONGITUDE_MAX <= min && min < LONGITUDE_MAX);
    assert_eq!((min as i128 - i64::MIN as i128) % (2 * LONGITUDE_MAX as i128), 0);
}

#[test]
fn the_sides_of_the_cells() {
    let degree = UNITS_PER_DEGREE;
    let heights = [
        400 * degree, 20 * degree, 20 * degree, degree, degree, degree / 20, degree / 20,
        degree / 400, degree / 400, degree / 8000, degree / 8000, degree / 40000,
        degree / 200000, degree / 1000000, degree / 5000000, degree / 25000000,
    ];
    for (len, height) in heights.iter().enumerate() {
        assert_eq!(compute_latitude_precision(len), *height, "{}", len);
    }
    assert_eq!(compute_latitude_precision(15), 2048);
    assert_eq!(compute_longitude_precision(15), 6250);
    assert_eq!(compute_longitude_precision(11), 1600000);
    assert_eq!(compute_longitude_precision(10), degree / 8000);
    assert_eq!(compute_longitude_precision(9), degree / 400);
    assert_eq!(compute_longitude_precision(0), 400 * degree);
    for (i, len) in [2usize, 4, 6, 8, 10].iter().enumerate() {
        assert_eq!(compute_latitude_precision(*len), PAIR_RESOLUTIONS[i]);
        assert_eq!(compute_longitude_precision(*len), PAIR_RESOLUTIONS[i]);
    }
}

#[test]
fn the_prefix_of_a_reference_position() {
    let reference = at(51.3701125, -1.217765625);
    assert_eq!(prefix_by_reference(reference, 0), "");
    assert_eq!(prefix_by_reference(reference, 4), "9C3W");
    assert_eq!(prefix_by_reference(reference, 6), "9C3W9Q");
    assert_eq!(prefix_by_reference(reference, 8), "9C3W9QCJ");
    // Cells of two digits are counted from the south pole, multiples of their height from
    // the equator: the prefix of two characters is that of the latitude rounded down to
    // such a multiple.
    assert_eq!(prefix_by_reference(reference, 2), "8C");
    assert_eq!(prefix_by_reference(at(95.0, 181.0), 4), "C2X3");
}

#[test]
fn areas_and_points() {
    let p = Point::new(3, -4);
    assert_eq!(p.lng(), 3);
    assert_eq!(p.lat(), -4);
    assert_eq!(p, Point { lat: -4, lng: 3 });
    let a = CodeArea::new(-10, 20, 30, 41, 6);
    assert_eq!((a.south, a.west, a.north, a.east, a.code_length), (-10, 20, 30, 41, 6));
    assert_eq!(a.center, Point::new(30, 10));
    let b = CodeArea::new(-31, -5, -10, 4, 2);
    assert_eq!(b.center, Point::new(-1, -21));
    let wide = CodeArea::new(i64::MIN, i64::MAX, i64::MIN + 1, i64::MAX, 0);
    assert_eq!(wide.center, Point::new(i64::MAX, i64::MIN));
    let merged = a.merge(CodeArea::new(1, 2, 3, 4, 5));
    assert_eq!(merged, CodeArea::new(-9, 22, 33, 45, 11));
    assert_eq!(merged.center, Point::new(33, 12));
    assert_eq!(midpoint(-3, 0), -2);
    assert_eq!(midpoint(3, 0), 1);
    assert_eq!(midpoint(i64::MAX, i64::MAX), i64::MAX);
}
