//! aircraft.json: the aircraft table as the station reads it.

use crate::text::{
    decimal, digits, hex_digits, law_decimal_reads_back, law_digits_read_back,
    law_rounding_is_to_the_nearest, lemma_says, lemma_says_on, lemma_says_run, put_decimal,
    put_digits, put_hex, put_one_decimal, put_signed, put_signed_decimal, round, rounded, says,
    signed, signed_decimal, spelled, to_the,
};
use crate::track::Aircraft;
use vstd::prelude::*;

verus! {

/// Billionths of a degree with six decimals.
pub open spec fn degrees(n: int) -> Seq<char> {
    let m = rounded((if n < 0 { -n } else { n }) as nat, 1000);
    (if n < 0 {
        seq!['-']
    } else {
        Seq::empty()
    }) + decimal(m / 1_000_000) + seq!['.'] + digits(m, 6)
}

/// Milliseconds as seconds with one decimal.
pub open spec fn seconds(ms: int) -> Seq<char> {
    signed_decimal(ms, 100)
}

/// Millionths of a decibel with one decimal.
pub open spec fn decibels(n: int) -> Seq<char> {
    signed_decimal(n, 100_000)
}

/// The part of an entry on its position: where, how long ago, and how far away
/// in millionths of a nautical mile.
pub open spec fn position_of(a: Aircraft, now: u64, range: int) -> Seq<char> {
    if a.lat is Some && a.lon is Some {
        ",\"lat\":"@ + degrees(a.lat->0 as int) + ",\"lon\":"@ + degrees(a.lon->0 as int)
            + ",\"seen_pos\":"@ + seconds(now - a.pos_time) + ",\"r_dst\":"@ + signed_decimal(range, 100_000) + (
        if a.pos_mlat {
            ",\"mlat\":[\"lat\",\"lon\"]"@
        } else {
            Seq::empty()
        })
    } else {
        Seq::empty()
    }
}

/// The part of an entry on its altitude.
pub open spec fn altitude_of(a: Aircraft) -> Seq<char> {
    match a.alt_ft {
        Some(alt) => ",\"alt_baro\":"@ + signed(alt as int),
        None => Seq::empty(),
    }
}

/// The digits of an address: six, or more where it needs them.
pub open spec fn width_of(hex: u32) -> nat {
    if hex < 0x100_0000 {
        6
    } else if hex < 0x1000_0000 {
        7
    } else {
        8
    }
}

/// The entry of one aircraft; its signal in millionths of dBFS.
pub open spec fn entry_of(a: Aircraft, now: u64, rssi: int, range: int) -> Seq<char> {
    "{\"hex\":\""@ + hex_digits(a.hex as nat, width_of(a.hex)) + "\",\"messages\":"@ + decimal(a.messages as nat)
        + ",\"seen\":"@ + seconds(now - a.last_seen) + ",\"rssi\":"@ + decibels(rssi) + position_of(
        a,
        now,
        range,
    ) + altitude_of(a) + "}"@
}

/// The entries, commas between them.
pub open spec fn joined(entries: Seq<Seq<char>>) -> Seq<char>
    decreases entries.len(),
{
    if entries.len() == 0 {
        Seq::empty()
    } else if entries.len() == 1 {
        entries[0]
    } else {
        joined(entries.drop_last()) + ","@ + entries.last()
    }
}

/// The whole document.
pub open spec fn table_of(now: u64, messages: u64, entries: Seq<Seq<char>>) -> Seq<char> {
    "{\"now\":"@ + seconds(now as int) + ",\"messages\":"@ + decimal(messages as nat)
        + ",\"aircraft\":["@ + joined(entries) + "]}"@
}

/// Append billionths of a degree with six decimals to `out`.
pub fn put_degrees(out: &mut String, n: i64)
    ensures
        final(out)@ == old(out)@ + degrees(n as int),
{
    proof {
        reveal_strlit("-");
        reveal_strlit(".");
    }
    let size: u64 = if n < 0 {
        out.append("-");
        (-(n as i128)) as u64
    } else {
        n as u64
    };
    let m: u64 = round(size, 1000);
    put_decimal(out, m / 1_000_000);
    out.append(".");
    put_digits(out, m, 6);
    assert(out@ =~= old(out)@ + degrees(n as int));
}

/// Append the milliseconds from `since` to `now` as seconds to `out`.
pub fn put_seconds(out: &mut String, now: u64, since: u64)
    ensures
        final(out)@ == old(out)@ + seconds(now - since),
{
    if now >= since {
        put_one_decimal(out, now - since, 100);
    } else {
        proof {
            reveal_strlit("-");
        }
        out.append("-");
        put_one_decimal(out, since - now, 100);
        assert(out@ =~= old(out)@ + seconds(now - since));
    }
}

/// Append where the aircraft was last seen, if that is known, to `out`.
fn put_position(out: &mut String, a: &Aircraft, now: u64, range: i64)
    ensures
        final(out)@ == old(out)@ + position_of(*a, now, range as int),
{
    if let Some(lat) = a.lat {
        if let Some(lon) = a.lon {
            out.append(",\"lat\":");
            put_degrees(out, lat);
            out.append(",\"lon\":");
            put_degrees(out, lon);
            out.append(",\"seen_pos\":");
            put_seconds(out, now, a.pos_time);
            out.append(",\"r_dst\":");
            put_signed_decimal(out, range, 100_000);
            if a.pos_mlat {
                out.append(",\"mlat\":[\"lat\",\"lon\"]");
            }
        }
    }
    assert(out@ =~= old(out)@ + position_of(*a, now, range as int));
}

/// Append the altitude of the aircraft, if it is known, to `out`.
fn put_altitude(out: &mut String, a: &Aircraft)
    ensures
        final(out)@ == old(out)@ + altitude_of(*a),
{
    if let Some(alt) = a.alt_ft {
        out.append(",\"alt_baro\":");
        put_signed(out, alt as i64);
    }
    assert(out@ =~= old(out)@ + altitude_of(*a));
}

/// The entry of one aircraft. Its signal in millionths of dBFS, its distance in
/// millionths of a nautical mile.
#[verifier::rlimit(30)]
pub fn entry(a: &Aircraft, now: u64, rssi: i64, range: i64) -> (s: String)
    ensures
        s@ == entry_of(*a, now, rssi as int, range as int),
{
    let mut s: String = String::new();
    s.append("{\"hex\":\"");
    put_hex(
        &mut s,
        a.hex,
        if a.hex < 0x100_0000 {
            6
        } else if a.hex < 0x1000_0000 {
            7
        } else {
            8
        },
    );
    s.append("\",\"messages\":");
    put_decimal(&mut s, a.messages);
    s.append(",\"seen\":");
    put_seconds(&mut s, now, a.last_seen);
    s.append(",\"rssi\":");
    put_signed_decimal(&mut s, rssi, 100_000);
    put_position(&mut s, a, now, range);
    put_altitude(&mut s, a);
    s.append("}");
    assert(s@ =~= entry_of(*a, now, rssi as int, range as int));
    s
}

/// Entries as values.
pub open spec fn texts(entries: Seq<String>) -> Seq<Seq<char>> {
    Seq::new(entries.len(), |k: int| entries[k]@)
}

/// The whole document.
pub fn table(now: u64, messages: u64, entries: &Vec<String>) -> (s: String)
    ensures
        s@ == table_of(now, messages, texts(entries@)),
{
    let mut s: String = String::new();
    s.append("{\"now\":");
    put_seconds(&mut s, now, 0);
    s.append(",\"messages\":");
    put_decimal(&mut s, messages);
    s.append(",\"aircraft\":[");
    let ghost head = s@;
    assert(s@ =~= head + joined(texts(entries@).take(0)));
    for k in 0..entries.len()
        invariant
            s@ == head + joined(texts(entries@).take(k as int)),
    {
        let ghost so_far = texts(entries@).take(k + 1);
        assert(so_far.drop_last() =~= texts(entries@).take(k as int));
        assert(so_far.last() == entries@[k as int]@);
        if k > 0 {
            s.append(",");
        }
        s.append(entries[k].as_str());
        assert(s@ =~= head + joined(so_far));
    }
    assert(texts(entries@).take(entries@.len() as int) =~= texts(entries@));
    s.append("]}");
    assert(s@ =~= table_of(now, messages, texts(entries@)));
    s
}

/// An entry gives the address, the count of messages, the age of the last one and the
/// signal, each under its name, whatever else is known.
pub proof fn law_entry_names_the_aircraft(a: Aircraft, now: u64, rssi: int, range: int)
    ensures
        ({
            let s = entry_of(a, now, rssi, range);
            &&& a.hex < 0x100_0000 ==> says(s, "{\"hex\":\""@ + hex_digits(a.hex as nat, 6) + "\",\"messages\":"@)
            &&& says(s, "\",\"messages\":"@ + decimal(a.messages as nat) + ",\"seen\":"@)
            &&& says(s, ",\"seen\":"@ + signed_decimal(now - a.last_seen, 100) + ",\"rssi\":"@)
            &&& says(s, ",\"rssi\":"@ + signed_decimal(rssi, 100_000))
            &&& a.alt_ft is Some ==> says(s, ",\"alt_baro\":"@ + signed(a.alt_ft->0 as int) + "}"@)
            &&& a.alt_ft is None && a.lat is None ==> says(s, ",\"rssi\":"@ + signed_decimal(rssi, 100_000) + "}"@)
        }),
{
    let h = hex_digits(a.hex as nat, width_of(a.hex));
    let (m, t, r) = (decimal(a.messages as nat), seconds(now - a.last_seen), decibels(rssi));
    let (p, alt) = (position_of(a, now, range), altitude_of(a));
    let s2 = "{\"hex\":\""@ + h + "\",\"messages\":"@;
    let s4 = s2 + m + ",\"seen\":"@;
    let s6 = s4 + t + ",\"rssi\":"@;
    lemma_says(Seq::empty(), s2, m);
    lemma_says_on(s2 + m, ",\"seen\":"@);
    lemma_says_run("{\"hex\":\""@ + h, "\",\"messages\":"@, m, ",\"seen\":"@);
    lemma_says_on(s4, t);
    lemma_says_on(s4 + t, ",\"rssi\":"@);
    lemma_says_run(s2 + m, ",\"seen\":"@, t, ",\"rssi\":"@);
    lemma_says_on(s6, r);
    lemma_says_run(s4 + t, ",\"rssi\":"@, r, "}"@);
    lemma_says_on(s6 + r, p);
    lemma_says_on(s6 + r + p, alt);
    lemma_says_on(s6 + r + p + alt, "}"@);
    assert(entry_of(a, now, rssi, range) == s6 + r + p + alt + "}"@);
    if a.alt_ft is Some {
        let q = signed(a.alt_ft->0 as int);
        lemma_says_run(s6 + r + p, ",\"alt_baro\":"@, q, "}"@);
        assert(s6 + r + p + alt =~= s6 + r + p + ",\"alt_baro\":"@ + q);
    } else if a.lat is None {
        assert(s6 + r + p + alt =~= s6 + r);
    }
}

/// A position is given where both coordinates are known: each under its name, with the age
/// of the position, not of the last message, and the distance.
pub proof fn law_positions_are_named(a: Aircraft, now: u64, range: int)
    ensures
        ({
            let s = position_of(a, now, range);
            &&& a.lat is None || a.lon is None ==> s.len() == 0
            &&& a.lat is Some && a.lon is Some ==> {
                &&& says(s, ",\"lat\":"@ + degrees(a.lat->0 as int) + ",\"lon\":"@)
                &&& says(s, ",\"lon\":"@ + degrees(a.lon->0 as int) + ",\"seen_pos\":"@)
                &&& says(s, ",\"seen_pos\":"@ + signed_decimal(now - a.pos_time, 100) + ",\"r_dst\":"@)
                &&& says(s, ",\"r_dst\":"@ + signed_decimal(range, 100_000))
                &&& a.pos_mlat ==> says(s, ",\"mlat\":[\"lat\",\"lon\"]"@)
            }
        }),
{
    if a.lat is Some && a.lon is Some {
        let (x, y) = (degrees(a.lat->0 as int), degrees(a.lon->0 as int));
        let (t, d) = (seconds(now - a.pos_time), signed_decimal(range, 100_000));
        let m = if a.pos_mlat {
            ",\"mlat\":[\"lat\",\"lon\"]"@
        } else {
            Seq::empty()
        };
        let s2 = ",\"lat\":"@ + x + ",\"lon\":"@;
        let s4 = s2 + y + ",\"seen_pos\":"@;
        let s6 = s4 + t + ",\"r_dst\":"@;
        lemma_says(Seq::empty(), s2, y);
        lemma_says_on(s2 + y, ",\"seen_pos\":"@);
        lemma_says_run(",\"lat\":"@ + x, ",\"lon\":"@, y, ",\"seen_pos\":"@);
        lemma_says_on(s4, t);
        lemma_says_on(s4 + t, ",\"r_dst\":"@);
        lemma_says_run(s2 + y, ",\"seen_pos\":"@, t, ",\"r_dst\":"@);
        lemma_says_on(s6, d);
        lemma_says_run(s4 + t, ",\"r_dst\":"@, d, m);
        lemma_says_on(s6 + d, m);
        lemma_says(s6 + d, m, Seq::empty());
        assert(position_of(a, now, range) == s6 + d + m);
    }
}

/// Degrees are written to the nearest millionth: the digits before the point and the six
/// after it read as that many millionths, and a minus stands before those of the south and
/// the west.
pub proof fn law_degrees_read_back(n: int)
    ensures
        ({
            let (s, size) = (degrees(n), if n < 0 { -n } else { n });
            let m = rounded(size as nat, 1000);
            let whole = decimal(m / 1_000_000);
            let part = s.skip(s.len() - 6);
            &&& 2 * (1000 * m) <= 2 * size + 1000
            &&& 2 * size <= 2 * (1000 * m) + 1000
            &&& s.len() >= 6
            &&& n >= 0 ==> s == whole + seq!['.'] + part
            &&& n < 0 ==> s == seq!['-'] + whole + seq!['.'] + part
            &&& 1_000_000 * spelled(whole, 10) + spelled(part, 10) == m
        }),
{
    let size = (if n < 0 { -n } else { n }) as nat;
    let m = rounded(size, 1000);
    let (s, whole, part) = (degrees(n), decimal(m / 1_000_000), digits(m, 6));
    law_rounding_is_to_the_nearest(size, 1000);
    law_decimal_reads_back(m / 1_000_000);
    law_digits_read_back(m, 6);
    assert(to_the(10, 6) == 1_000_000) by {
        reveal_with_fuel(to_the, 7);
    }
    assert(s.skip(s.len() - 6) =~= part);
    assert(n >= 0 ==> s =~= whole + seq!['.'] + part);
    assert(n < 0 ==> s =~= seq!['-'] + whole + seq!['.'] + part);
}

/// Every entry is in the table, and the time and the count of messages stand before them.
pub proof fn law_table_holds_the_entries(now: u64, messages: u64, entries: Seq<Seq<char>>, k: int)
    requires
        0 <= k < entries.len(),
    ensures
        says(table_of(now, messages, entries), entries[k]),
        says(
            table_of(now, messages, entries),
            "{\"now\":"@ + signed_decimal(now as int, 100) + ",\"messages\":"@ + decimal(messages as nat)
                + ",\"aircraft\":["@,
        ),
{
    let head = "{\"now\":"@ + seconds(now as int) + ",\"messages\":"@ + decimal(messages as nat)
        + ",\"aircraft\":["@;
    lemma_says(Seq::empty(), head, joined(entries));
    lemma_joined(entries, k);
    lemma_says_on(head, joined(entries));
    lemma_says_on(head + joined(entries), "]}"@);
}

proof fn lemma_joined(entries: Seq<Seq<char>>, k: int)
    requires
        0 <= k < entries.len(),
    ensures
        says(joined(entries), entries[k]),
    decreases entries.len(),
{
    if entries.len() == 1 {
        lemma_says(Seq::empty(), entries[k], Seq::empty());
    } else {
        let first = joined(entries.drop_last());
        lemma_says_on(first, ","@);
        lemma_says_on(first + ","@, entries.last());
        lemma_says(first + ","@, entries.last(), Seq::empty());
        if k < entries.len() - 1 {
            lemma_joined(entries.drop_last(), k);
        }
    }
}

/// An address is written whole, in six digits or more.
pub proof fn law_addresses_are_written_whole(hex: u32)
    ensures
        hex_digits(hex as nat, width_of(hex)).len() >= 6,
        hex < 0x100_0000 ==> hex_digits(hex as nat, width_of(hex)).len() == 6,
        spelled(hex_digits(hex as nat, width_of(hex)), 16) == hex,
{
    law_digits_read_back(hex as nat, width_of(hex));
    assert(to_the(16, 6) == 0x100_0000 && to_the(16, 7) == 0x1000_0000 && to_the(16, 8) == 0x1_0000_0000) by {
        reveal_with_fuel(to_the, 9);
    }
    assert((hex as int) % 0x1_0000_0000 == hex);
    assert(hex < 0x100_0000 ==> (hex as int) % 0x100_0000 == hex);
    assert(hex < 0x1000_0000 ==> (hex as int) % 0x1000_0000 == hex);
}

} // verus!
