use random_karma::cache::ResultCache;
use regex::Regex;
use random_karma::utils::{
    base_target_range, base_target_step, calc_cached_count, calc_target_from_idx, clamp_target,
    parse_time_to_ms, slider_position, spread_indices, target_from_step, validate_lap_count,
    validate_numeric_input, validate_player_count, validate_target, TimeParseError,
};
use random_karma::{
    check_search_sums_fit, checked_pool_total, format_ms_to_minsecms, parse_lap_time,
    pool_total_fits, read_cars_from_csv_string, Car, LapTimeError,
};

fn pool(lap_times: &[u32]) -> Vec<Car> {
    lap_times
        .iter()
        .enumerate()
        .map(|(i, &t)| Car { id: format!("car{}", i), lap_time: t })
        .collect()
}

const FORMAT_ERROR: &str = "Invalid time format. Use: 2:30, 2m30s, 150s, or 150000";

#[test]
fn time_round_trip() {
    assert_eq!(format_ms_to_minsecms(150_000), "02:30.000");
    assert_eq!(parse_time_to_ms(&format_ms_to_minsecms(150_000)), Ok(150_000));
    for ms in [0u32, 1, 999, 1000, 59_999, 60_000, 3_599_999, 2_800_000, 4_294_967_295] {
        assert_eq!(parse_time_to_ms(&format_ms_to_minsecms(ms)), Ok(ms), "ms = {}", ms);
    }
}

#[test]
fn time_is_written_with_padding() {
    assert_eq!(format_ms_to_minsecms(0), "00:00.000");
    assert_eq!(format_ms_to_minsecms(61_001), "01:01.001");
    assert_eq!(format_ms_to_minsecms(599_990), "09:59.990");
    assert_eq!(format_ms_to_minsecms(6_000_000), "100:00.000");
    assert_eq!(format_ms_to_minsecms(u32::MAX), "71582:47.295");
}

#[test]
fn time_is_read_in_every_form() {
    assert_eq!(parse_time_to_ms("2:30"), Ok(150_000));
    assert_eq!(parse_time_to_ms("2m30s"), Ok(150_000));
    assert_eq!(parse_time_to_ms("2m 30s"), Ok(150_000));
    assert_eq!(parse_time_to_ms("2m \t 30s"), Ok(150_000));
    assert_eq!(parse_time_to_ms("150s"), Ok(150_000));
    assert_eq!(parse_time_to_ms("150000"), Ok(150_000));
    assert_eq!(parse_time_to_ms("  2:30  "), Ok(150_000));
    assert_eq!(parse_time_to_ms("2:30.500"), Ok(150_500));
    assert_eq!(parse_time_to_ms("2:30.5"), Ok(150_500));
    assert_eq!(parse_time_to_ms("2:30.50"), Ok(150_500));
    assert_eq!(parse_time_to_ms("2:30.05"), Ok(150_050));
    assert_eq!(parse_time_to_ms("2:30.005"), Ok(150_005));
    assert_eq!(parse_time_to_ms("0:00"), Ok(0));
    assert_eq!(parse_time_to_ms("0"), Ok(0));
    assert_eq!(parse_time_to_ms("+5"), Ok(5));
    assert_eq!(parse_time_to_ms("007"), Ok(7));
    assert_eq!(parse_time_to_ms("2:5"), Ok(125_000));
    assert_eq!(parse_time_to_ms("4294967295"), Ok(u32::MAX));
    assert_eq!(parse_time_to_ms("71582:47.295"), Ok(u32::MAX));
    assert_eq!(parse_time_to_ms("4294967s"), Ok(4_294_967_000));
}

#[test]
fn seconds_above_59_are_refused() {
    assert_eq!(
        parse_time_to_ms("2:61"),
        Err("Invalid time format: seconds must be 0-59".to_string())
    );
    assert_eq!(
        parse_time_to_ms("2m61s"),
        Err("Invalid time format: seconds must be 0-59".to_string())
    );
    assert_eq!(
        parse_time_to_ms("2:61.000"),
        Err("Invalid seconds: 61 (must be 0-59)".to_string())
    );
    assert_eq!(
        parse_time_to_ms("0:60.5"),
        Err("Invalid seconds: 60 (must be 0-59)".to_string())
    );
    assert_eq!(parse_time_to_ms("2:59"), Ok(179_000));
    assert_eq!(parse_time_to_ms("61s"), Ok(61_000));
}

#[test]
fn unreadable_times_are_answered_in_words() {
    assert_eq!(parse_time_to_ms(""), Err("Time cannot be empty".to_string()));
    assert_eq!(parse_time_to_ms("   "), Err("Time cannot be empty".to_string()));
    for text in [
        "abc", "2:3.5", "2:30.", "2:30.5000", ":30", "2:", "2m", "2m30", "m30s", "s", "2 m30s",
        "2:30s", "1.5", "-5", "2:30.5x", "2::30", "4294967296", "2m30s ok", "2:3o",
    ] {
        assert_eq!(parse_time_to_ms(text), Err(FORMAT_ERROR.to_string()), "text {:?}", text);
    }
    assert_eq!(parse_time_to_ms("99999999999:10"), Err("Invalid minutes".to_string()));
    assert_eq!(parse_time_to_ms("99999999999m10s"), Err("Invalid minutes".to_string()));
    assert_eq!(parse_time_to_ms("1:99999999999"), Err("Invalid seconds".to_string()));
    assert_eq!(parse_time_to_ms("99999999999s"), Err("Invalid seconds".to_string()));
    assert_eq!(
        parse_time_to_ms("99999999999:10.5"),
        Err("Invalid minutes value".to_string())
    );
}

#[test]
fn times_beyond_32_bits_are_refused() {
    assert_eq!(parse_time_to_ms("71582:47.296"), Err("Invalid minutes value".to_string()));
    assert_eq!(parse_time_to_ms("71582:48"), Err("Invalid minutes".to_string()));
    assert_eq!(parse_time_to_ms("71583m0s"), Err("Invalid minutes".to_string()));
    assert_eq!(parse_time_to_ms("4294968s"), Err("Invalid seconds".to_string()));
}

#[test]
fn time_errors_in_words() {
    assert_eq!(TimeParseError::EmptyInput.message(), "Time cannot be empty");
    assert_eq!(
        TimeParseError::InvalidFormat("Try again".to_string()).message(),
        "Invalid time format. Try again"
    );
    assert_eq!(TimeParseError::InvalidMinutes.message(), "Invalid minutes value");
    assert_eq!(
        TimeParseError::InvalidSeconds(75).message(),
        "Invalid seconds: 75 (must be 0-59)"
    );
    assert_eq!(TimeParseError::InvalidSeconds(0).message(), "Invalid seconds: 0 (must be 0-59)");
    assert_eq!(TimeParseError::InvalidMilliseconds.message(), "Invalid milliseconds value");
}

#[test]
fn numbers_are_checked_against_their_bounds() {
    assert_eq!(validate_numeric_input("5", Some(1), Some(10), "Count"), Ok(5));
    assert_eq!(validate_numeric_input(" 10 ", Some(1), Some(10), "Count"), Ok(10));
    assert_eq!(validate_numeric_input("1", Some(1), Some(10), "Count"), Ok(1));
    assert_eq!(validate_numeric_input("+3", None, None, "Count"), Ok(3));
    assert_eq!(validate_numeric_input("0", None, Some(10), "Count"), Ok(0));
    assert_eq!(validate_numeric_input("999", Some(1), None, "Count"), Ok(999));
    assert_eq!(
        validate_numeric_input("0", Some(1), Some(10), "Count"),
        Err("Count must be at least 1".to_string())
    );
    assert_eq!(
        validate_numeric_input("11", Some(1), Some(10), "Count"),
        Err("Count cannot exceed 10".to_string())
    );
    assert_eq!(
        validate_numeric_input("  ", Some(1), Some(10), "Count"),
        Err("Count cannot be empty".to_string())
    );
    assert_eq!(
        validate_numeric_input("4.5", Some(1), Some(10), "Count"),
        Err("Count must be a valid number".to_string())
    );
    assert_eq!(
        validate_numeric_input("-1", Some(1), Some(10), "Count"),
        Err("Count must be a valid number".to_string())
    );
    assert_eq!(
        validate_numeric_input("99999999999999999999999", None, None, "Count"),
        Err("Count must be a valid number".to_string())
    );
    assert_eq!(
        validate_numeric_input("3", Some(12345), Some(2), "Count"),
        Err("Count must be at least 12345".to_string())
    );
}

#[test]
fn lap_and_player_counts() {
    assert_eq!(validate_lap_count("25", 100), Ok(25));
    assert_eq!(validate_lap_count("100", 100), Ok(100));
    assert_eq!(validate_lap_count("0", 100), Err("Lap count must be at least 1".to_string()));
    assert_eq!(validate_lap_count("101", 100), Err("Lap count cannot exceed 100".to_string()));
    assert_eq!(validate_lap_count("", 100), Err("Lap count cannot be empty".to_string()));
    assert_eq!(validate_lap_count("x", 100), Err("Lap count must be a valid number".to_string()));
    assert_eq!(validate_lap_count("1", 0), Err("Lap count cannot exceed 0".to_string()));
    assert_eq!(validate_player_count("0"), Ok(0));
    assert_eq!(validate_player_count("250"), Ok(250));
    assert_eq!(validate_player_count("251"), Err("Player count cannot exceed 250".to_string()));
    assert_eq!(validate_player_count(""), Err("Player count cannot be empty".to_string()));
    assert_eq!(
        validate_player_count("many"),
        Err("Player count must be a valid number".to_string())
    );
}

#[test]
fn spread_order() {
    assert_eq!(spread_indices(0), Vec::<usize>::new());
    assert_eq!(spread_indices(1), vec![0]);
    assert_eq!(spread_indices(2), vec![0, 1]);
    assert_eq!(spread_indices(3), vec![0, 2, 1]);
    assert_eq!(spread_indices(5), vec![0, 4, 2, 1, 3]);
    assert_eq!(spread_indices(10), vec![0, 9, 4, 2, 6, 1, 3, 5, 7, 8]);
    let hundred = spread_indices(100);
    let mut sorted = hundred.clone();
    sorted.sort();
    assert_eq!(sorted, (0..100).collect::<Vec<usize>>());
    assert_eq!(&hundred[..3], &[0, 99, 49]);
}

#[test]
fn slider_scale() {
    assert_eq!(base_target_step(0, 99), 1);
    assert_eq!(base_target_step(0, 100), 2);
    assert_eq!(base_target_step(0, 198), 2);
    assert_eq!(base_target_step(0, 199), 3);
    assert_eq!(base_target_step(5, 5), 1);
    assert_eq!(base_target_step(10, 5), 1);
    assert_eq!(base_target_step(0, u32::MAX), 43_383_509);
    assert_eq!(calc_target_from_idx(0, 1000, 0), 0);
    assert_eq!(calc_target_from_idx(0, 1000, 50), 550);
    assert_eq!(calc_target_from_idx(0, 1000, 90), 990);
    assert_eq!(calc_target_from_idx(0, 1000, 91), 1000);
    assert_eq!(calc_target_from_idx(0, 1000, 99), 1000);
    assert_eq!(calc_target_from_idx(100, 100, 7), 100);
    assert_eq!(calc_target_from_idx(0, u32::MAX, 99), u32::MAX);
    assert_eq!(calc_target_from_idx(0, u32::MAX, usize::MAX), u32::MAX);
    assert_eq!(target_from_step(10, 100, 7, 3), 31);
    assert_eq!(target_from_step(10, 100, 7, 13), 100);
    assert_eq!(target_from_step(10, 100, 0, 13), 10);
    let cars = pool(&[50, 10, 100, 20]);
    assert_eq!(base_target_range(&cars, 2), (30, 150));
    assert_eq!(base_target_range(&[], 2), (0, 0));
}

#[test]
fn cache_keeps_what_is_put_into_it() {
    let mut cache: ResultCache<String> = ResultCache::new();
    assert_eq!(cache.len(), 0);
    assert!(!cache.contains_key(&(10, 2, 3)));
    assert_eq!(cache.get(&(10, 2, 3)), None);
    cache.insert((10, 2, 3), "first".to_string());
    cache.insert((20, 2, 3), "second".to_string());
    assert_eq!(cache.len(), 2);
    assert!(cache.contains_key(&(10, 2, 3)));
    assert!(!cache.contains_key(&(10, 3, 2)));
    assert_eq!(cache.get(&(20, 2, 3)), Some(&"second".to_string()));
    cache.insert((10, 2, 3), "again".to_string());
    assert_eq!(cache.len(), 2);
    assert_eq!(cache.get(&(10, 2, 3)), Some(&"again".to_string()));
    assert_eq!(cache.key_at(0), (10, 2, 3));
    assert_eq!(cache.key_at(1), (20, 2, 3));
    cache.clear();
    assert_eq!(cache.len(), 0);
    assert_eq!(cache.get(&(10, 2, 3)), None);
}

#[test]
fn cached_positions_are_counted() {
    let mut cache: ResultCache<u8> = ResultCache::new();
    assert_eq!(calc_cached_count(&cache, 0, 990, 10, 3, 4), 0);
    cache.insert((0, 3, 4), 1);
    cache.insert((10, 3, 4), 1);
    cache.insert((500, 3, 4), 1);
    cache.insert((505, 3, 4), 1);
    cache.insert((20, 3, 5), 1);
    cache.insert((30, 2, 4), 1);
    assert_eq!(calc_cached_count(&cache, 0, 990, 10, 3, 4), 3);
    assert_eq!(calc_cached_count(&cache, 0, 990, 10, 3, 5), 1);
    assert_eq!(calc_cached_count(&cache, 0, 990, 10, 9, 9), 0);
    let mut flat: ResultCache<u8> = ResultCache::new();
    flat.insert((7, 1, 1), 1);
    assert_eq!(calc_cached_count(&flat, 7, 7, 1, 1, 1), 100);
    assert_eq!(calc_cached_count(&flat, 0, 7, 1, 1, 1), 93);
}

#[test]
fn lap_times_are_read() {
    assert_eq!(parse_lap_time("1:23.456"), Ok(83_456));
    assert_eq!(parse_lap_time("1:23.4"), Ok(83_400));
    assert_eq!(parse_lap_time("1:23.45"), Ok(83_450));
    assert_eq!(parse_lap_time("01:03.007"), Ok(63_007));
    assert_eq!(parse_lap_time(" 1 : 23 . 456 "), Ok(83_456));
    assert_eq!(parse_lap_time("1:23.007"), Ok(83_007));
    assert_eq!(parse_lap_time("+1:+23.5"), Ok(83_500));
    assert_eq!(parse_lap_time("0:00.0"), Ok(0));
    assert_eq!(parse_lap_time("71582:47.295"), Ok(u32::MAX));
}

#[test]
fn lap_times_that_cannot_be_read() {
    assert_eq!(parse_lap_time("123"), Err(LapTimeError::Format));
    assert_eq!(parse_lap_time(""), Err(LapTimeError::Format));
    assert_eq!(parse_lap_time("1:2:3.4"), Err(LapTimeError::Format));
    assert_eq!(parse_lap_time("a:23.4"), Err(LapTimeError::Minutes));
    assert_eq!(parse_lap_time(":23.4"), Err(LapTimeError::Minutes));
    assert_eq!(parse_lap_time("1.5:23.4"), Err(LapTimeError::Minutes));
    assert_eq!(parse_lap_time("1:23"), Err(LapTimeError::SecondsFormat));
    assert_eq!(parse_lap_time("1:2.3.4"), Err(LapTimeError::SecondsFormat));
    assert_eq!(parse_lap_time("1:b.4"), Err(LapTimeError::Seconds));
    assert_eq!(parse_lap_time("1:.4"), Err(LapTimeError::Seconds));
    assert_eq!(parse_lap_time("1:60.0"), Err(LapTimeError::SecondsRange(60)));
    assert_eq!(parse_lap_time("1:23.x"), Err(LapTimeError::Milliseconds));
    assert_eq!(parse_lap_time("1:23."), Err(LapTimeError::Milliseconds));
    assert_eq!(parse_lap_time("1:23.4567"), Err(LapTimeError::Milliseconds));
    assert_eq!(parse_lap_time("1:23.0000"), Err(LapTimeError::Milliseconds));
    assert_eq!(parse_lap_time("1:23.+5"), Err(LapTimeError::Milliseconds));
    assert_eq!(parse_lap_time("1:23.5 0"), Err(LapTimeError::Milliseconds));
    assert_eq!(parse_lap_time("71582:47.296"), Err(LapTimeError::TooLong));
    assert_eq!(parse_lap_time("99999:00.000"), Err(LapTimeError::TooLong));
}

fn records(cars: &[Car]) -> Vec<(String, u32)> {
    cars.iter().map(|c| (c.id.clone(), c.lap_time)).collect()
}

#[test]
fn cars_are_loaded_line_by_line() {
    let content = "h1\nh2\nx,A,foo,1:00.000\nx,B,foo,bad\nx,A,foo,2:00.000\nx,B,foo,1:30.5\nshort\nx, C ,foo, 0:59.99 \r\nx,D,foo,3:00.0";
    let cars = read_cars_from_csv_string(content, 1, 3, 2).unwrap();
    assert_eq!(
        records(&cars),
        vec![
            ("A".to_string(), 60_000),
            ("C".to_string(), 59_990),
            ("D".to_string(), 180_000)
        ]
    );
}

#[test]
fn loading_passes_over_a_fraction_of_more_than_three_digits() {
    let content = "a,1:00.0001\nb,1:00.001\na,1:00.5";
    assert_eq!(
        records(&read_cars_from_csv_string(content, 0, 1, 0).unwrap()),
        vec![("b".to_string(), 60_001)]
    );
}

struct Patterns {
    with_millis: Regex,
    minutes_seconds: Regex,
    colon: Regex,
    seconds_only: Regex,
}

fn patterns() -> Patterns {
    Patterns {
        with_millis: Regex::new(r"^(\d+):(\d{2})\.(\d{1,3})$").unwrap(),
        minutes_seconds: Regex::new(r"^(\d+)m\s*(\d+)s$").unwrap(),
        colon: Regex::new(r"^(\d+):(\d+)$").unwrap(),
        seconds_only: Regex::new(r"^(\d+)s$").unwrap(),
    }
}

fn reference_time(known: &Patterns, input: &str) -> Option<u32> {
    let trimmed = input.trim();
    if trimmed.is_empty() {
        return None;
    }
    if let Ok(ms) = trimmed.parse::<u32>() {
        return Some(ms);
    }
    if let Some(found) = known.with_millis.captures(trimmed) {
        let minutes: u64 = found[1].parse::<u32>().ok()?.into();
        let seconds: u64 = found[2].parse::<u32>().ok()?.into();
        let mut millis: u64 = found[3].parse::<u32>().ok()?.into();
        if seconds > 59 {
            return None;
        }
        match found[3].len() {
            1 => millis *= 100,
            2 => millis *= 10,
            _ => {}
        }
        return u32::try_from(minutes * 60_000 + seconds * 1_000 + millis).ok();
    }
    for pattern in [&known.minutes_seconds, &known.colon] {
        if let Some(found) = pattern.captures(trimmed) {
            let minutes: u64 = found[1].parse::<u32>().ok()?.into();
            let seconds: u64 = found[2].parse::<u32>().ok()?.into();
            if seconds > 59 {
                return None;
            }
            return u32::try_from(minutes * 60_000 + seconds * 1_000).ok();
        }
    }
    if let Some(found) = known.seconds_only.captures(trimmed) {
        let seconds: u64 = found[1].parse::<u32>().ok()?.into();
        return u32::try_from(seconds * 1_000).ok();
    }
    None
}

#[test]
fn times_are_read_as_the_patterns_read_them() {
    let known = patterns();
    let pieces = ["", "0", "59", "60", "007", "71582", "99999999999"];
    let marks = ["", ":", ".", "m", "s", "m \t", "+", "x"];
    let ends = ["", "s", ".5", ".05", ".005", ".0005", " "];
    for a in pieces {
        for m1 in marks {
            for b in pieces {
                for m2 in ends {
                    let text = format!("{}{}{}{}", a, m1, b, m2);
                    assert_eq!(
                        parse_time_to_ms(&text).ok(),
                        reference_time(&known, &text),
                        "text {:?}",
                        text
                    );
                }
            }
        }
    }
}

#[test]
fn loading_passes_over_what_it_cannot_read() {
    assert_eq!(records(&read_cars_from_csv_string("", 0, 1, 0).unwrap()), vec![]);
    assert_eq!(records(&read_cars_from_csv_string("\n\n", 0, 1, 0).unwrap()), vec![]);
    assert_eq!(records(&read_cars_from_csv_string("a,1:00.0", 0, 1, 1).unwrap()), vec![]);
    assert_eq!(records(&read_cars_from_csv_string("a,1:00.0", 0, 2, 0).unwrap()), vec![]);
    assert_eq!(
        records(&read_cars_from_csv_string("a,1:00.0\n", 0, 1, 0).unwrap()),
        vec![("a".to_string(), 60_000)]
    );
    assert_eq!(
        records(&read_cars_from_csv_string("1:00.0,a\r\n1:01.0,b\r\n", 1, 0, 0).unwrap()),
        vec![("a".to_string(), 60_000), ("b".to_string(), 61_000)]
    );
    assert_eq!(
        records(&read_cars_from_csv_string(",0:01.0\n,0:02.0", 0, 1, 0).unwrap()),
        vec![("".to_string(), 1_000)]
    );
    assert_eq!(
        records(&read_cars_from_csv_string("a,0:01.0\r", 0, 1, 0).unwrap()),
        vec![("a".to_string(), 1_000)]
    );
    assert_eq!(
        records(&read_cars_from_csv_string("é,0:01.0\nü ,0:02.0", 0, 1, 0).unwrap()),
        vec![("é".to_string(), 1_000), ("ü".to_string(), 2_000)]
    );
}

#[test]
fn slider_position_rounds_to_the_nearest_step() {
    assert_eq!(slider_position(0, 990, 0), 0);
    assert_eq!(slider_position(0, 990, 990), 99);
    assert_eq!(slider_position(0, 990, 500), 50);
    assert_eq!(slider_position(0, 990, 504), 50);
    assert_eq!(slider_position(0, 990, 505), 51);
    assert_eq!(slider_position(0, 990, 2000), 99);
    assert_eq!(slider_position(100, 100, 100), 0);
    assert_eq!(slider_position(100, 298, 101), 1);
    assert_eq!(slider_position(0, u32::MAX, u32::MAX), 99);
    assert_eq!(clamp_target(5, 10, 20), 10);
    assert_eq!(clamp_target(15, 10, 20), 15);
    assert_eq!(clamp_target(25, 10, 20), 20);
    assert_eq!(validate_target("2:30", 100_000, 200_000), Ok(150_000));
    assert_eq!(validate_target("100s", 100_000, 200_000), Ok(100_000));
    assert_eq!(
        validate_target("1:30", 100_000, 200_000),
        Err("Target must be between 01:40.000 and 03:20.000".to_string())
    );
    assert_eq!(
        validate_target("3:21", 100_000, 200_000),
        Err("Target must be between 01:40.000 and 03:20.000".to_string())
    );
    assert_eq!(
        validate_target("soon", 100_000, 200_000),
        Err("Invalid time format. Use: 2:30, 2m30s, 150s, or 150000".to_string())
    );
}

#[test]
fn pool_totals_are_checked() {
    let small = pool(&[10, 20, 30]);
    assert_eq!(checked_pool_total(&small), Some(60));
    assert!(pool_total_fits(&small));
    assert!(check_search_sums_fit(&small, 2));
    let half = pool(&[u32::MAX / 2]);
    assert!(check_search_sums_fit(&half, 1));
    let over_half = pool(&[u32::MAX / 2, 1]);
    assert!(pool_total_fits(&over_half));
    assert!(check_search_sums_fit(&over_half, 2));
    let over = pool(&[u32::MAX, 1]);
    assert_eq!(checked_pool_total(&over), None);
    assert!(!pool_total_fits(&over));
    assert!(!check_search_sums_fit(&over, 2));
    assert!(check_search_sums_fit(&over, 1));
    assert!(check_search_sums_fit(&over, 0));
    assert!(check_search_sums_fit(&over, 3));
    let long = pool(&[4_000_000_000, 200_000_000, 94_967_295, 1]);
    assert!(check_search_sums_fit(&long, 2));
    assert!(check_search_sums_fit(&long, 3));
    assert!(!check_search_sums_fit(&long, 4));
    let edge = pool(&[4_000_000_000, 294_967_295, 0, 0]);
    assert!(check_search_sums_fit(&edge, 4));
    assert!(check_search_sums_fit(&[], 0));
    assert!(check_search_sums_fit(&[], 5));
    assert_eq!(checked_pool_total(&[]), Some(0));
}
