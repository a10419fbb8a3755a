//! Loading cars from delimited text, and lap times as text.

use vstd::prelude::*;
use vstd::string::{StrSliceExecFns, StringExecFns};
use crate::car::Car;
use crate::text::{
    all_digits, append_padded, chars_of, decimal_value, digits_end, lemma_digit_run,
    lemma_digits_value, lemma_short_value, padded_digits, parse_unsigned, trim, trim_bounds,
    unsigned_value,
};

verus! {

/// Why a lap time could not be read.
#[derive(Debug, Clone, Copy, PartialEq, Eq, Structural)]
pub enum LapTimeError {
    /// The text does not hold exactly one colon.
    Format,
    /// What stands before the colon is no number.
    Minutes,
    /// What stands behind the colon does not hold exactly one point.
    SecondsFormat,
    /// What stands between colon and point is no number.
    Seconds,
    /// The seconds exceed 59.
    SecondsRange(u32),
    /// What stands behind the point is not one to three digits.
    Milliseconds,
    /// The time does not fit in 32 bits of milliseconds.
    TooLong,
}

/// Position of the first `c` in `s`, or the length of `s` if there is none.
pub open spec fn first_index(s: Seq<char>, c: char) -> int
    decreases s.len(),
{
    if s.len() == 0 || s[0] == c {
        0
    } else {
        1 + first_index(s.drop_first(), c)
    }
}

/// The parts of `s` between the occurrences of `c`. There is always at least
/// one part, and a part may be empty.
pub open spec fn split(s: Seq<char>, c: char) -> Seq<Seq<char>>
    decreases s.len(),
{
    let p = first_index(s, c);
    if p < 0 || p >= s.len() {
        seq![s]
    } else {
        seq![s.take(p)] + split(s.skip(p + 1), c)
    }
}

/// A text has at least one part, and more than one where the separator
/// occurs.
pub proof fn lemma_split_len(s: Seq<char>, c: char)
    ensures
        split(s, c).len() >= 1,
        split(s, c).len() >= 2 <==> first_index(s, c) < s.len(),
    decreases s.len(),
{
    lemma_first_index(s, c);
    let p = first_index(s, c);
    if p < s.len() {
        lemma_split_len(s.skip(p + 1), c);
    }
}

pub proof fn lemma_first_index(s: Seq<char>, c: char)
    ensures
        0 <= first_index(s, c) <= s.len(),
        forall|j: int| 0 <= j < first_index(s, c) ==> s[j] != c,
        first_index(s, c) < s.len() ==> s[first_index(s, c)] == c,
    decreases s.len(),
{
    if s.len() == 0 || s[0] == c {
    } else {
        let rest = s.drop_first();
        lemma_first_index(rest, c);
        assert forall|j: int| 0 <= j < first_index(s, c) implies s[j] != c by {
            if j > 0 {
                assert(s[j] == rest[j - 1]);
            }
        }
        if first_index(s, c) < s.len() {
            assert(s[first_index(s, c)] == rest[first_index(rest, c)]);
        }
    }
}

/// What stands behind the point of a lap time: one to three digits.
pub open spec fn is_fraction(text: Seq<char>) -> bool {
    1 <= text.len() <= 3 && all_digits(text)
}

/// The milliseconds that the digits behind the point denote: one digit counts
/// tenths of a second, two count hundredths, and three count milliseconds.
pub open spec fn scaled(text: Seq<char>) -> nat {
    if text.len() == 1 {
        decimal_value(text) * 100
    } else if text.len() == 2 {
        decimal_value(text) * 10
    } else {
        decimal_value(text)
    }
}

/// The milliseconds that a lap time `MM:SS.mmm` denotes. Each of the three
/// numbers may have white space around it; the seconds must not exceed 59,
/// and behind the point stand one to three digits.
pub open spec fn lap_time_of(s: Seq<char>) -> Result<u32, LapTimeError> {
    let p = first_index(s, ':');
    let rest = s.skip(p + 1);
    let q = first_index(rest, '.');
    let after = rest.skip(q + 1);
    if p >= s.len() || first_index(rest, ':') < rest.len() {
        Err(LapTimeError::Format)
    } else {
        match unsigned_value(trim(s.take(p)), u32::MAX as nat) {
            None => Err(LapTimeError::Minutes),
            Some(minutes) => if q >= rest.len() || first_index(after, '.') < after.len() {
                Err(LapTimeError::SecondsFormat)
            } else {
                match unsigned_value(trim(rest.take(q)), u32::MAX as nat) {
                    None => Err(LapTimeError::Seconds),
                    Some(seconds) => if seconds > 59 {
                        Err(LapTimeError::SecondsRange(seconds as u32))
                    } else {
                        if !is_fraction(trim(after)) {
                            Err(LapTimeError::Milliseconds)
                        } else {
                            let total = minutes * 60_000 + seconds * 1_000 + scaled(trim(after));
                            if total > u32::MAX {
                                Err(LapTimeError::TooLong)
                            } else {
                                Ok(total as u32)
                            }
                        }
                    },
                }
            },
        }
    }
}

/// Where the first `sep` at or behind `from` stands, looking no further than
/// `to`; `to` if there is none.
pub fn next_separator(chars: &[char], from: usize, to: usize, sep: char) -> (end: usize)
    requires
        from <= to <= chars@.len(),
    ensures
        from <= end <= to,
        end - from == first_index(chars@.subrange(from as int, to as int), sep),
        end < to ==> chars@[end as int] == sep,
{
    let ghost s = chars@.subrange(from as int, to as int);
    let mut end = from;
    assert(s.skip(0) =~= s);
    while end < to && chars[end] != sep
        invariant
            from <= end <= to <= chars@.len(),
            s == chars@.subrange(from as int, to as int),
            first_index(s, sep) == (end - from) + first_index(s.skip(end - from), sep),
        decreases to - end,
    {
        proof {
            let rest = s.skip(end - from);
            assert(rest[0] == chars@[end as int]);
            assert(rest.drop_first() =~= s.skip(end - from + 1));
        }
        end += 1;
    }
    proof {
        let rest = s.skip(end - from);
        if end < to {
            assert(rest[0] == chars@[end as int]);
        }
    }
    end
}

/// Reads the lap time that stands between `from` and `to`.
pub fn parse_lap_time_at(chars: &[char], from: usize, to: usize) -> (parsed: Result<
    u32,
    LapTimeError,
>)
    requires
        from <= to <= chars@.len(),
    ensures
        parsed == lap_time_of(chars@.subrange(from as int, to as int)),
{
    let ghost s = chars@.subrange(from as int, to as int);
    let colon = next_separator(chars, from, to, ':');
    if colon >= to {
        return Err(LapTimeError::Format);
    }
    let ghost rest = chars@.subrange(colon + 1, to as int);
    assert(rest =~= s.skip(colon - from + 1));
    assert(chars@.subrange(from as int, colon as int) =~= s.take(colon - from));
    let second_colon = next_separator(chars, colon + 1, to, ':');
    if second_colon < to {
        return Err(LapTimeError::Format);
    }
    let (m0, m1) = trim_bounds(chars, from, colon);
    let minutes = match parse_unsigned(chars, m0, m1, u32::MAX as u64) {
        Some(m) => m,
        None => {
            return Err(LapTimeError::Minutes);
        },
    };
    let point = next_separator(chars, colon + 1, to, '.');
    if point >= to {
        return Err(LapTimeError::SecondsFormat);
    }
    let ghost after = chars@.subrange(point + 1, to as int);
    assert(after =~= rest.skip(point - (colon + 1) + 1));
    assert(chars@.subrange(colon + 1, point as int) =~= rest.take(point - (colon + 1)));
    let second_point = next_separator(chars, point + 1, to, '.');
    if second_point < to {
        return Err(LapTimeError::SecondsFormat);
    }
    let (s0, s1) = trim_bounds(chars, colon + 1, point);
    let seconds = match parse_unsigned(chars, s0, s1, u32::MAX as u64) {
        Some(s) => s,
        None => {
            return Err(LapTimeError::Seconds);
        },
    };
    if seconds > 59 {
        return Err(LapTimeError::SecondsRange(seconds as u32));
    }
    let (f0, f1) = trim_bounds(chars, point + 1, to);
    let digits = f1 - f0;
    if digits < 1 || digits > 3 || digits_end(chars, f0, f1) != f1 {
        proof {
            lemma_digit_run(chars@.subrange(f0 as int, f1 as int));
        }
        return Err(LapTimeError::Milliseconds);
    }
    proof {
        let fraction = chars@.subrange(f0 as int, f1 as int);
        lemma_digit_run(fraction);
        lemma_digits_value(fraction, 999);
        lemma_short_value(fraction);
    }
    let millis = match parse_unsigned(chars, f0, f1, 999) {
        Some(ms) => ms,
        None => {
            return Err(LapTimeError::Milliseconds);
        },
    };
    let scaled_millis: u64 = if digits == 1 {
        millis * 100
    } else if digits == 2 {
        millis * 10
    } else {
        millis
    };
    let total: u64 = minutes * 60_000 + seconds * 1_000 + scaled_millis;
    if total > u32::MAX as u64 {
        return Err(LapTimeError::TooLong);
    }
    Ok(total as u32)
}

/// Reads a lap time of the form `MM:SS.mmm` as milliseconds.
pub fn parse_lap_time(time_str: &str) -> (parsed: Result<u32, LapTimeError>)
    ensures
        parsed == lap_time_of(time_str@),
{
    let chars = chars_of(time_str);
    assert(chars@.subrange(0, chars@.len() as int) =~= time_str@);
    parse_lap_time_at(chars.as_slice(), 0, chars.len())
}

/// A time of `ms` milliseconds as `MM:SS.mmm`: minutes of at least two
/// digits, seconds of two, milliseconds of three.
pub open spec fn format_text(ms: u32) -> Seq<char> {
    padded_digits((ms / 1000 / 60) as nat, 2) + seq![':'] + padded_digits(
        (ms / 1000 % 60) as nat,
        2,
    ) + seq!['.'] + padded_digits((ms % 1000) as nat, 3)
}

/// Writes a time in milliseconds as `MM:SS.mmm`.
pub fn format_ms_to_minsecms(ms: u32) -> (text: String)
    ensures
        text@ == format_text(ms),
{
    let total_seconds = ms / 1000;
    let minutes = total_seconds / 60;
    let seconds = total_seconds % 60;
    let milliseconds = ms % 1000;
    let mut text = String::new();
    proof {
        reveal_strlit(":");
        reveal_strlit(".");
    }
    append_padded(&mut text, minutes as u64, 2);
    text.append(":");
    append_padded(&mut text, seconds as u64, 2);
    text.append(".");
    append_padded(&mut text, milliseconds as u64, 3);
    proof {
        assert(text@ =~= format_text(ms));
    }
    text
}

/// What has been loaded so far: the cars, and the identifiers that were met,
/// whether or not their line gave a car.
pub ghost struct Loaded {
    pub cars: Seq<(Seq<char>, u32)>,
    pub seen: Seq<Seq<char>>,
}

/// A line without the carriage return that may stand at its end.
pub open spec fn strip_return(line: Seq<char>) -> Seq<char> {
    if line.len() > 0 && line.last() == '\r' {
        line.drop_last()
    } else {
        line
    }
}

/// Whether the part at `i` of a text split at its line feeds is a line: every
/// part is but an empty last one.
pub open spec fn is_line(parts: Seq<Seq<char>>, i: int) -> bool {
    i + 1 < parts.len() || parts[i].len() > 0
}

/// The line at `i`: the part, without the carriage return before its line
/// feed.
pub open spec fn line_text(parts: Seq<Seq<char>>, i: int) -> Seq<char> {
    if i + 1 < parts.len() {
        strip_return(parts[i])
    } else {
        parts[i]
    }
}

/// What one line adds. A line with too few columns adds nothing. Otherwise
/// its identifier, white space at its ends aside, counts as met; a line whose
/// identifier was met before adds nothing more, nor does one whose lap time
/// cannot be read.
pub open spec fn load_line(before: Loaded, line: Seq<char>, id_column: int, time_column: int) -> Loaded {
    let fields = split(line, ',');
    if fields.len() <= id_column || fields.len() <= time_column {
        before
    } else {
        let id = trim(fields[id_column]);
        if before.seen.contains(id) {
            before
        } else {
            match lap_time_of(trim(fields[time_column])) {
                Ok(lap_time) => Loaded {
                    cars: before.cars.push((id, lap_time)),
                    seen: before.seen.push(id),
                },
                Err(_) => Loaded { cars: before.cars, seen: before.seen.push(id) },
            }
        }
    }
}

/// What the first `count` parts of a text add, the lines before `start_line`
/// left out.
pub open spec fn load_parts(
    parts: Seq<Seq<char>>,
    count: int,
    id_column: int,
    time_column: int,
    start_line: int,
) -> Loaded
    decreases count,
{
    if count <= 0 {
        Loaded { cars: Seq::empty(), seen: Seq::empty() }
    } else {
        let before = load_parts(parts, count - 1, id_column, time_column, start_line);
        if count - 1 >= start_line && is_line(parts, count - 1) {
            load_line(before, line_text(parts, count - 1), id_column, time_column)
        } else {
            before
        }
    }
}

/// The cars that a text holds: identifier and lap time of each.
pub open spec fn loaded_cars(
    content: Seq<char>,
    id_column: int,
    time_column: int,
    start_line: int,
) -> Seq<(Seq<char>, u32)> {
    let parts = split(content, '\n');
    load_parts(parts, parts.len() as int, id_column, time_column, start_line).cars
}

/// Identifier and lap time of each car.
pub open spec fn car_records(cars: Seq<Car>) -> Seq<(Seq<char>, u32)> {
    Seq::new(cars.len(), |i: int| (cars[i].id@, cars[i].lap_time))
}

/// The texts of the identifiers.
pub open spec fn texts(ids: Seq<String>) -> Seq<Seq<char>> {
    Seq::new(ids.len(), |i: int| ids[i]@)
}

/// The part at `k` of what stands between `from` and `to`, split at `sep`.
pub fn field_bounds(chars: &[char], from: usize, to: usize, sep: char, k: usize) -> (bounds: Option<
    (usize, usize),
>)
    requires
        from <= to <= chars@.len(),
    ensures
        match bounds {
            Some((a, b)) => {
                &&& k < split(chars@.subrange(from as int, to as int), sep).len()
                &&& from <= a <= b <= to
                &&& chars@.subrange(a as int, b as int) == split(
                    chars@.subrange(from as int, to as int),
                    sep,
                )[k as int]
            },
            None => split(chars@.subrange(from as int, to as int), sep).len() <= k,
        },
{
    let ghost line = chars@.subrange(from as int, to as int);
    let ghost mut done: Seq<Seq<char>> = Seq::empty();
    let mut start = from;
    let mut idx: usize = 0;
    assert(done + split(line, sep) =~= split(line, sep));
    loop
        invariant
            from <= start <= to <= chars@.len(),
            idx <= k,
            line == chars@.subrange(from as int, to as int),
            done.len() == idx,
            split(line, sep) == done + split(chars@.subrange(start as int, to as int), sep),
        decreases to - start,
    {
        let ghost rest = chars@.subrange(start as int, to as int);
        let end = next_separator(chars, start, to, sep);
        proof {
            lemma_first_index(rest, sep);
            assert(rest.take(end - start) =~= chars@.subrange(start as int, end as int));
            if end >= to {
                assert(rest.take(end - start) =~= rest);
            } else {
                assert(rest.skip(end - start + 1) =~= chars@.subrange(end + 1, to as int));
            }
        }
        if idx == k {
            return Some((start, end));
        }
        if end >= to {
            return None;
        }
        proof {
            let part = rest.take(end - start);
            let tail = split(chars@.subrange(end + 1, to as int), sep);
            assert(split(rest, sep) == seq![part] + tail);
            assert(done + (seq![part] + tail) =~= done.push(part) + tail);
            done = done.push(part);
        }
        start = end + 1;
        idx += 1;
    }
}

/// Whether `id` is among `seen`.
pub fn is_known(seen: &Vec<String>, id: &String) -> (known: bool)
    ensures
        known == texts(seen@).contains(id@),
{
    let mut i: usize = 0;
    while i < seen.len()
        invariant
            i <= seen@.len(),
            forall|j: int| 0 <= j < i ==> texts(seen@)[j] != id@,
        decreases seen@.len() - i,
    {
        if seen[i] == *id {
            assert(texts(seen@)[i as int] == id@);
            return true;
        }
        i += 1;
    }
    false
}

/// Takes in the line between `from` and `to` of the text `content`, whose
/// characters are `chars`.
fn load_one_line(
    content: &str,
    chars: &[char],
    from: usize,
    to: usize,
    id_column: usize,
    time_column: usize,
    cars: &mut Vec<Car>,
    seen: &mut Vec<String>,
    Ghost(before): Ghost<Loaded>,
)
    requires
        from <= to <= chars@.len(),
        chars@ == content@,
        car_records(old(cars)@) == before.cars,
        texts(old(seen)@) == before.seen,
    ensures
        ({
            let after = load_line(
                before,
                chars@.subrange(from as int, to as int),
                id_column as int,
                time_column as int,
            );
            car_records(final(cars)@) == after.cars && texts(final(seen)@) == after.seen
        }),
{
    let id_field = field_bounds(chars, from, to, ',', id_column);
    let time_field = field_bounds(chars, from, to, ',', time_column);
    let (id_bounds, time_bounds) = match (id_field, time_field) {
        (Some(i), Some(t)) => (i, t),
        _ => {
            return ;
        },
    };
    let (i0, i1) = trim_bounds(chars, id_bounds.0, id_bounds.1);
    let id = String::from_str(content.substring_char(i0, i1));
    if is_known(seen, &id) {
        return ;
    }
    let (t0, t1) = trim_bounds(chars, time_bounds.0, time_bounds.1);
    let parsed = parse_lap_time_at(chars, t0, t1);
    let ghost seen_before = seen@;
    let ghost cars_before = cars@;
    seen.push(id.clone());
    proof {
        assert(texts(seen@) =~= texts(seen_before).push(id@));
    }
    match parsed {
        Ok(lap_time) => {
            cars.push(Car { id, lap_time });
            proof {
                assert(car_records(cars@) =~= car_records(cars_before).push((id@, lap_time)));
            }
        },
        Err(_) => {},
    }
}

/// Loads cars from delimited text: one car per line, its fields parted by
/// commas, the identifier in column `id_column` and the lap time, as
/// `MM:SS.mmm`, in column `time_column`, both counted from zero. The first
/// `start_line` lines are left out. A line that has too few fields, repeats
/// an identifier or holds no readable lap time is passed over, and the load
/// goes on. It never fails.
pub fn read_cars_from_csv_string(
    csv_content: &str,
    id_column: usize,
    time_column: usize,
    start_line: usize,
) -> (loaded: Result<Vec<Car>, String>)
    ensures
        loaded matches Ok(cars) && car_records(cars@) == loaded_cars(
            csv_content@,
            id_column as int,
            time_column as int,
            start_line as int,
        ),
{
    let chars = chars_of(csv_content);
    let len = chars.len();
    let mut cars: Vec<Car> = Vec::new();
    let mut seen: Vec<String> = Vec::new();
    let ghost parts = split(csv_content@, '\n');
    let ghost mut done: Seq<Seq<char>> = Seq::empty();
    let ghost mut state = Loaded { cars: Seq::empty(), seen: Seq::empty() };
    let mut start: usize = 0;
    let mut line_no: usize = 0;
    proof {
        assert(chars@.subrange(0, len as int) =~= csv_content@);
        assert(done + parts =~= parts);
        assert(car_records(cars@) =~= state.cars);
        assert(texts(seen@) =~= state.seen);
    }
    loop
        invariant
            start <= len == chars@.len(),
            chars@ == csv_content@,
            parts == split(csv_content@, '\n'),
            done.len() == line_no,
            line_no <= start,
            parts == done + split(chars@.subrange(start as int, len as int), '\n'),
            state == load_parts(
                parts,
                line_no as int,
                id_column as int,
                time_column as int,
                start_line as int,
            ),
            car_records(cars@) == state.cars,
            texts(seen@) == state.seen,
        decreases len - start,
    {
        let ghost rest = chars@.subrange(start as int, len as int);
        let end = next_separator(chars.as_slice(), start, len, '\n');
        let terminated = end < len;
        proof {
            lemma_first_index(rest, '\n');
            lemma_split_len(rest, '\n');
            assert(rest.take(end - start) =~= chars@.subrange(start as int, end as int));
            if !terminated {
                assert(rest.take(end - start) =~= rest);
            } else {
                assert(rest.skip(end - start + 1) =~= chars@.subrange(end + 1, len as int));
            }
            assert(parts[line_no as int] == chars@.subrange(start as int, end as int));
            assert(terminated <==> line_no + 1 < parts.len());
        }
        if line_no >= start_line && (terminated || end > start) {
            let line_end = if terminated && end > start && chars[end - 1] == '\r' {
                end - 1
            } else {
                end
            };
            proof {
                let part = chars@.subrange(start as int, end as int);
                if end > start {
                    assert(part.last() == chars@[end - 1]);
                }
                assert(chars@.subrange(start as int, line_end as int) =~= line_text(
                    parts,
                    line_no as int,
                ));
            }
            load_one_line(
                csv_content,
                chars.as_slice(),
                start,
                line_end,
                id_column,
                time_column,
                &mut cars,
                &mut seen,
                Ghost(state),
            );
        }
        proof {
            state = load_parts(
                parts,
                line_no + 1,
                id_column as int,
                time_column as int,
                start_line as int,
            );
        }
        if !terminated {
            proof {
                assert(parts.len() == line_no + 1);
            }
            return Ok(cars);
        }
        proof {
            let part = rest.take(end - start);
            let tail = split(chars@.subrange(end + 1, len as int), '\n');
            assert(split(rest, '\n') == seq![part] + tail);
            assert(done + (seq![part] + tail) =~= done.push(part) + tail);
            done = done.push(part);
        }
        start = end + 1;
        line_no += 1;
    }
}

} // verus!
