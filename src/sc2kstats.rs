use crate::bytes::{be_u32, u32_at};
use crate::error::SC2KError;
use crate::sc2kfile::SC2KFileChunk;
use crate::text::{decimal, push_decimal};
use vstd::prelude::*;

verus! {

/// Number of bytes in the global statistics record: 18 big-endian words.
pub const STATS_LEN: usize = 72;

/// SimCity 2000 stats: the global city record, in file order.
#[derive(Debug, Clone, Copy, PartialEq, Eq, Structural)]
pub struct SC2KStats {
    pub header: u32,
    pub mode: u32,
    pub rotation: u32,
    pub year_founded: u32,
    pub age: u32,
    pub money: u32,
    pub bonds: u32,
    pub level: u32,
    pub status: u32,
    pub city_value: u32,
    pub land_value: u32,
    pub crime_count: u32,
    pub traffic_count: u32,
    pub pollution: u32,
    pub city_fame: u32,
    pub advertising: u32,
    pub garbage: u32,
    pub work_force_percent: u32,
}

/// The record whose fields are all zero.
pub open spec fn zero_stats() -> SC2KStats {
    SC2KStats {
        header: 0,
        mode: 0,
        rotation: 0,
        year_founded: 0,
        age: 0,
        money: 0,
        bonds: 0,
        level: 0,
        status: 0,
        city_value: 0,
        land_value: 0,
        crime_count: 0,
        traffic_count: 0,
        pollution: 0,
        city_fame: 0,
        advertising: 0,
        garbage: 0,
        work_force_percent: 0,
    }
}

/// The record held by the first 72 bytes of `d`: field `i` is the
/// big-endian word at byte `4 * i`.
pub open spec fn stats_of(d: Seq<u8>) -> SC2KStats {
    SC2KStats {
        header: be_u32(d, 0),
        mode: be_u32(d, 4),
        rotation: be_u32(d, 8),
        year_founded: be_u32(d, 12),
        age: be_u32(d, 16),
        money: be_u32(d, 20),
        bonds: be_u32(d, 24),
        level: be_u32(d, 28),
        status: be_u32(d, 32),
        city_value: be_u32(d, 36),
        land_value: be_u32(d, 40),
        crime_count: be_u32(d, 44),
        traffic_count: be_u32(d, 48),
        pollution: be_u32(d, 52),
        city_fame: be_u32(d, 56),
        advertising: be_u32(d, 60),
        garbage: be_u32(d, 64),
        work_force_percent: be_u32(d, 68),
    }
}

/// What decoding a statistics payload gives: the record, or `ShortRecord`
/// where the payload is shorter than the record.
pub open spec fn stats_result(d: Seq<u8>) -> Result<SC2KStats, SC2KError> {
    if d.len() < STATS_LEN {
        Err(SC2KError::ShortRecord)
    } else {
        Ok(stats_of(d))
    }
}

impl Default for SC2KStats {
    fn default() -> (r: SC2KStats)
        ensures
            r == zero_stats(),
    {
        SC2KStats {
            header: 0,
            mode: 0,
            rotation: 0,
            year_founded: 0,
            age: 0,
            money: 0,
            bonds: 0,
            level: 0,
            status: 0,
            city_value: 0,
            land_value: 0,
            crime_count: 0,
            traffic_count: 0,
            pollution: 0,
            city_fame: 0,
            advertising: 0,
            garbage: 0,
            work_force_percent: 0,
        }
    }
}

impl SC2KStats {
    /// Decodes the stats from the decompressed payload of a MISC chunk.
    ///
    /// # Errors
    ///
    /// * `ShortRecord` when the payload holds fewer than 72 bytes.
    pub fn new(chunk: &SC2KFileChunk) -> (r: Result<SC2KStats, SC2KError>)
        ensures
            r == stats_result(chunk.data@),
    {
        if chunk.data.len() < STATS_LEN {
            return Err(SC2KError::ShortRecord);
        }
        let mut stats = SC2KStats::default();
        stats.extract_stats(chunk);
        Ok(stats)
    }

    /// Reads the 18 fields, in order, from the chunk's payload.
    fn extract_stats(&mut self, chunk: &SC2KFileChunk)
        requires
            chunk.data@.len() >= STATS_LEN,
        ensures
            *final(self) == stats_of(chunk.data@),
    {
        let d = chunk.data.as_slice();
        self.header = u32_at(d, 0);
        self.mode = u32_at(d, 4);
        self.rotation = u32_at(d, 8);
        self.year_founded = u32_at(d, 12);
        self.age = u32_at(d, 16);
        self.money = u32_at(d, 20);
        self.bonds = u32_at(d, 24);
        self.level = u32_at(d, 28);
        self.status = u32_at(d, 32);
        self.city_value = u32_at(d, 36);
        self.land_value = u32_at(d, 40);
        self.crime_count = u32_at(d, 44);
        self.traffic_count = u32_at(d, 48);
        self.pollution = u32_at(d, 52);
        self.city_fame = u32_at(d, 56);
        self.advertising = u32_at(d, 60);
        self.garbage = u32_at(d, 64);
        self.work_force_percent = u32_at(d, 68);
    }

    /// Converts the stats to a JSON member: `"stats":` and an object with
    /// the mode, founding year, age, money, bonds, level and status.
    pub fn to_json(&self) -> (r: String)
        ensures
            r@ == stats_json(*self),
    {
        let mut r = String::from_str("\"stats\":{\"mode\":");
        push_decimal(&mut r, self.mode);
        r.append(",\"year_founded\":");
        push_decimal(&mut r, self.year_founded);
        r.append(",\"age\":");
        push_decimal(&mut r, self.age);
        r.append(",\"money\":");
        push_decimal(&mut r, self.money);
        r.append(",\"bonds\":");
        push_decimal(&mut r, self.bonds);
        r.append(",\"level\":");
        push_decimal(&mut r, self.level);
        r.append(",\"status\":");
        push_decimal(&mut r, self.status);
        r.append("}");
        r
    }
}

/// The JSON member of the stats.
pub open spec fn stats_json(s: SC2KStats) -> Seq<char> {
    "\"stats\":{\"mode\":"@ + decimal(s.mode as nat) + ",\"year_founded\":"@ + decimal(
        s.year_founded as nat,
    ) + ",\"age\":"@ + decimal(s.age as nat) + ",\"money\":"@ + decimal(s.money as nat)
        + ",\"bonds\":"@ + decimal(s.bonds as nat) + ",\"level\":"@ + decimal(s.level as nat)
        + ",\"status\":"@ + decimal(s.status as nat) + "}"@
}

} // verus!
