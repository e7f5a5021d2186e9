use crate::bytes::{be_u16, u16_at};
use crate::error::SC2KError;
use crate::sc2kfile::SC2KFileChunk;
use crate::sc2kstats::{stats_json, stats_result, zero_stats, SC2KStats};
use crate::text::{decimal, json_list, latin1, latin1_string, lemma_json_list_step, push_decimal};
use vstd::arithmetic::power2::{lemma2_to64, lemma_pow2_pos, pow2};
use vstd::bits::{
    lemma_u32_low_bits_mask_is_mod, lemma_u32_pow2_no_overflow, lemma_u32_shl_is_mul,
    lemma_u32_shr_is_div, low_bits_mask,
};
use vstd::prelude::*;

verus! {

/// Tiles per row and rows per map.
pub const MAP_SIZE: usize = 128;

/// Tiles per map.
pub const MAP_TILES: usize = 16384;

/// SimCity 2000 map tile: its attributes, one per contributing chunk tag,
/// in the order in which they were first set.
#[derive(Debug)]
pub struct SC2KMapTile {
    pub attributes: Vec<(String, u8)>,
}

impl View for SC2KMapTile {
    type V = Seq<(Seq<char>, u8)>;

    open spec fn view(&self) -> Seq<(Seq<char>, u8)> {
        self.attributes@.map_values(|p: (String, u8)| (p.0@, p.1))
    }
}

/// `a` with key `k` set to `v`: in place where `k` is present, else at
/// the end.
pub open spec fn keyed_insert<V>(a: Seq<(Seq<char>, V)>, k: Seq<char>, v: V) -> Seq<
    (Seq<char>, V),
>
    decreases a.len(),
{
    if a.len() == 0 {
        seq![(k, v)]
    } else if a[0].0 == k {
        a.update(0, (k, v))
    } else {
        seq![a[0]] + keyed_insert(a.drop_first(), k, v)
    }
}

pub(crate) proof fn lemma_keyed_insert_at<V>(a: Seq<(Seq<char>, V)>, k: Seq<char>, v: V, i: int)
    requires
        0 <= i < a.len(),
        a[i].0 == k,
        forall|j: int| 0 <= j < i ==> a[j].0 != k,
    ensures
        keyed_insert(a, k, v) == a.update(i, (k, v)),
    decreases a.len(),
{
    if i > 0 {
        lemma_keyed_insert_at(a.drop_first(), k, v, i - 1);
        assert(seq![a[0]] + a.drop_first().update(i - 1, (k, v)) =~= a.update(i, (k, v)));
    }
}

pub(crate) proof fn lemma_keyed_insert_new<V>(a: Seq<(Seq<char>, V)>, k: Seq<char>, v: V)
    requires
        forall|j: int| 0 <= j < a.len() ==> a[j].0 != k,
    ensures
        keyed_insert(a, k, v) == a.push((k, v)),
    decreases a.len(),
{
    if a.len() > 0 {
        lemma_keyed_insert_new(a.drop_first(), k, v);
        assert(seq![a[0]] + a.drop_first().push((k, v)) =~= a.push((k, v)));
    }
}

impl SC2KMapTile {
    /// A tile with no attribute set.
    pub fn empty() -> (r: SC2KMapTile)
        ensures
            r@ == Seq::<(Seq<char>, u8)>::empty(),
    {
        let r = SC2KMapTile { attributes: Vec::new() };
        assert(r@ =~= Seq::<(Seq<char>, u8)>::empty());
        r
    }

    /// Sets attribute `key` to `value`.
    pub fn insert(&mut self, key: &String, value: u8)
        ensures
            final(self)@ == keyed_insert(old(self)@, key@, value),
    {
        let n = self.attributes.len();
        let mut i: usize = 0;
        while i < n
            invariant
                n == self.attributes@.len(),
                *self == *old(self),
                i <= n,
                forall|j: int| 0 <= j < i ==> (#[trigger] self@[j]).0 != key@,
            decreases n - i,
        {
            if self.attributes[i].0 == *key {
                proof {
                    lemma_keyed_insert_at(self@, key@, value, i as int);
                }
                self.attributes[i].1 = value;
                assert(self@ =~= old(self)@.update(i as int, (key@, value)));
                return ;
            }
            i = i + 1;
        }
        proof {
            lemma_keyed_insert_new(self@, key@, value);
        }
        self.attributes.push((key.clone(), value));
        assert(self@ =~= old(self)@.push((key@, value)));
    }
}

/// The attributes of one tile, as values.
pub type TileView = Seq<(Seq<char>, u8)>;

/// SimCity 2000 map data: a 128 x 128 grid of tiles, row by row, the
/// global statistics and the city name.
#[derive(Debug)]
pub struct SC2KMap {
    pub tiles: Vec<Vec<SC2KMapTile>>,
    pub stats: SC2KStats,
    pub name: String,
}

/// The map as values.
pub struct MapView {
    pub tiles: Seq<Seq<TileView>>,
    pub stats: SC2KStats,
    pub name: Seq<char>,
}

impl View for SC2KMap {
    type V = MapView;

    open spec fn view(&self) -> MapView {
        MapView {
            tiles: self.tiles@.map_values(
                |row: Vec<SC2KMapTile>| row@.map_values(|t: SC2KMapTile| t@),
            ),
            stats: self.stats,
            name: self.name@,
        }
    }
}

/// The grid has 128 rows of 128 tiles.
pub open spec fn grid_wf(t: Seq<Seq<TileView>>) -> bool {
    t.len() == MAP_SIZE && forall|y: int| 0 <= y < MAP_SIZE ==> #[trigger] t[y].len() == MAP_SIZE
}

/// The map before any chunk: every tile without attributes, zero stats,
/// no name.
pub open spec fn empty_map() -> MapView {
    MapView {
        tiles: Seq::new(MAP_SIZE as nat, |y: int| Seq::new(MAP_SIZE as nat, |x: int| Seq::empty())),
        stats: zero_stats(),
        name: Seq::empty(),
    }
}

/// Tile `i` of the grid in row-major order after a one-byte-per-tile
/// layer `data` under `key`: set where the payload reaches it, else as it was.
pub open spec fn layer_tile(t: TileView, key: Seq<char>, data: Seq<u8>, i: int) -> TileView {
    if i < data.len() {
        keyed_insert(t, key, data[i])
    } else {
        t
    }
}

/// `m` after a one-byte-per-tile layer.
pub open spec fn with_layer(m: MapView, key: Seq<char>, data: Seq<u8>) -> MapView {
    MapView {
        tiles: Seq::new(
            MAP_SIZE as nat,
            |y: int|
                Seq::new(
                    MAP_SIZE as nat,
                    |x: int| layer_tile(m.tiles[y][x], key, data, y * MAP_SIZE + x),
                ),
        ),
        stats: m.stats,
        name: m.name,
    }
}

/// The altitude of an altitude-map word: its bits 0 to 3.
pub open spec fn altitude_of(w: u16) -> u8 {
    (w as int % 16) as u8
}

/// The water flag of an altitude-map word: its bit 7.
pub open spec fn water_of(w: u16) -> u8 {
    (w as int / 128 % 2) as u8
}

/// Tile `i` after the altitude map `data`: where the payload holds its
/// word, the tile gets `ALTM` and then `WATR` from that word.
pub open spec fn altitude_tile(t: TileView, data: Seq<u8>, i: int) -> TileView {
    if 2 * i + 2 <= data.len() {
        let w = be_u16(data, 2 * i);
        keyed_insert(keyed_insert(t, "ALTM"@, altitude_of(w)), "WATR"@, water_of(w))
    } else {
        t
    }
}

/// `m` after the altitude map `data`, or `ShortRecord` where `data` ends in
/// half a word.
pub open spec fn with_altitude(m: MapView, data: Seq<u8>) -> Result<MapView, SC2KError> {
    if data.len() % 2 != 0 {
        Err(SC2KError::ShortRecord)
    } else {
        Ok(
            MapView {
                tiles: Seq::new(
                    MAP_SIZE as nat,
                    |y: int|
                        Seq::new(
                            MAP_SIZE as nat,
                            |x: int| altitude_tile(m.tiles[y][x], data, y * MAP_SIZE + x),
                        ),
                ),
                stats: m.stats,
                name: m.name,
            },
        )
    }
}

/// `m` with the stats of a MISC payload, or the error of that payload.
pub open spec fn with_stats(m: MapView, data: Seq<u8>) -> Result<MapView, SC2KError> {
    match stats_result(data) {
        Ok(s) => Ok(MapView { tiles: m.tiles, stats: s, name: m.name }),
        Err(e) => Err(e),
    }
}

/// The bytes of a name payload up to the first NUL, without the escape
/// byte 31.
pub open spec fn name_bytes(d: Seq<u8>) -> Seq<u8>
    decreases d.len(),
{
    if d.len() == 0 || d[0] == 0 {
        Seq::empty()
    } else if d[0] == 31 {
        name_bytes(d.drop_first())
    } else {
        seq![d[0]] + name_bytes(d.drop_first())
    }
}

/// A byte whose character is white space: tab, line feed, vertical tab,
/// form feed, carriage return, space, next line, no-break space.
pub open spec fn is_space(b: u8) -> bool {
    (9 <= b <= 13) || b == 32 || b == 0x85 || b == 0xA0
}

/// `s` without its leading white space.
pub open spec fn trim_start(s: Seq<u8>) -> Seq<u8>
    decreases s.len(),
{
    if s.len() > 0 && is_space(s[0]) {
        trim_start(s.drop_first())
    } else {
        s
    }
}

/// `s` without its trailing white space.
pub open spec fn trim_end(s: Seq<u8>) -> Seq<u8>
    decreases s.len(),
{
    if s.len() > 0 && is_space(s.last()) {
        trim_end(s.drop_last())
    } else {
        s
    }
}

/// The city name that a name payload holds, trimmed.
pub open spec fn name_of(d: Seq<u8>) -> Seq<char> {
    latin1(trim_end(trim_start(name_bytes(d))))
}

/// `m` with the name of a name payload.
pub open spec fn with_name(m: MapView, data: Seq<u8>) -> MapView {
    MapView { tiles: m.tiles, stats: m.stats, name: name_of(data) }
}

proof fn lemma_trim_start(s: Seq<u8>, a: int)
    requires
        0 <= a <= s.len(),
        forall|j: int| 0 <= j < a ==> is_space(#[trigger] s[j]),
        a == s.len() || !is_space(s[a]),
    ensures
        trim_start(s) == s.subrange(a, s.len() as int),
    decreases a,
{
    if a == 0 {
        assert(s.subrange(0, s.len() as int) =~= s);
    } else {
        lemma_trim_start(s.drop_first(), a - 1);
        assert(s.drop_first().subrange(a - 1, s.len() - 1) =~= s.subrange(a, s.len() as int));
    }
}

proof fn lemma_trim_end(s: Seq<u8>, b: int)
    requires
        0 <= b <= s.len(),
        forall|j: int| b <= j < s.len() ==> is_space(#[trigger] s[j]),
        b == 0 || !is_space(s[b - 1]),
    ensures
        trim_end(s) == s.subrange(0, b),
    decreases s.len() - b,
{
    if b == s.len() {
        assert(s.subrange(0, b) =~= s);
    } else {
        lemma_trim_end(s.drop_last(), b);
        assert(s.drop_last().subrange(0, b) =~= s.subrange(0, b));
    }
}

impl Default for SC2KMap {
    fn default() -> (r: SC2KMap)
        ensures
            r@ == empty_map(),
    {
        let mut tiles: Vec<Vec<SC2KMapTile>> = Vec::new();
        let mut y: usize = 0;
        while y < MAP_SIZE
            invariant
                y <= MAP_SIZE,
                tiles@.len() == y,
                forall|r: int| 0 <= r < y ==> (#[trigger] tiles@[r])@.len() == MAP_SIZE,
                forall|r: int, c: int|
                    0 <= r < y && 0 <= c < MAP_SIZE ==> (#[trigger] tiles@[r]@[c])@
                        == Seq::<(Seq<char>, u8)>::empty(),
            decreases MAP_SIZE - y,
        {
            let mut row: Vec<SC2KMapTile> = Vec::new();
            let mut x: usize = 0;
            while x < MAP_SIZE
                invariant
                    x <= MAP_SIZE,
                    row@.len() == x,
                    forall|c: int|
                        0 <= c < x ==> (#[trigger] row@[c])@ == Seq::<(Seq<char>, u8)>::empty(),
                decreases MAP_SIZE - x,
            {
                row.push(SC2KMapTile::empty());
                x = x + 1;
            }
            tiles.push(row);
            y = y + 1;
        }
        let r = SC2KMap { tiles, stats: SC2KStats::default(), name: String::new() };
        assert(r@.tiles =~~= empty_map().tiles);
        r
    }
}

impl SC2KMap {
    /// The grid has 128 rows of 128 tiles.
    pub open spec fn wf(&self) -> bool {
        grid_wf(self@.tiles)
    }

    /// The `length`-bit field of `value` that starts at bit `start` (bit 0
    /// is the least significant).
    pub fn extract_bits(value: u16, start: u8, length: u8) -> (r: u16)
        requires
            start + length <= 16,
        ensures
            r == (value as nat / pow2(start as nat)) % pow2(length as nat),
    {
        let v = value as u32;
        let shifted: u32 = v >> (start as u32);
        proof {
            lemma_u32_shr_is_div(v, start as u32);
            lemma_u32_pow2_no_overflow(length as nat);
            lemma_u32_shl_is_mul(1u32, length as u32);
            lemma_pow2_pos(start as nat);
            lemma_pow2_pos(length as nat);
        }
        let mask: u32 = (1u32 << (length as u32)) - 1;
        let r = shifted & mask;
        proof {
            assert(mask == low_bits_mask(length as nat) as u32);
            lemma_u32_low_bits_mask_is_mod(shifted, length as nat);
            let p = pow2(start as nat);
            let q = pow2(length as nat);
            assert(v as nat / p <= v as nat) by (nonlinear_arith)
                requires
                    p >= 1,
            ;
            assert(shifted as nat % q <= shifted as nat) by (nonlinear_arith)
                requires
                    q >= 1,
            ;
        }
        r as u16
    }

    /// Extracts the map stats from a MISC chunk.
    ///
    /// # Errors
    ///
    /// * `ShortRecord` when the payload is shorter than the record; the map
    ///   is then left as it was.
    pub fn extract_stats(&mut self, chunk: &SC2KFileChunk) -> (r: Result<(), SC2KError>)
        ensures
            match with_stats(old(self)@, chunk.data@) {
                Ok(m) => r is Ok && final(self)@ == m,
                Err(e) => r == Err::<(), SC2KError>(e) && final(self)@ == old(self)@,
            },
    {
        match SC2KStats::new(chunk) {
            Ok(s) => {
                self.stats = s;
                Ok(())
            },
            Err(e) => Err(e),
        }
    }

    /// Extracts the map name from a CNAM chunk: the bytes up to the first
    /// NUL, without the escape byte 31, one character per byte, trimmed of
    /// white space.
    pub fn extract_name(&mut self, chunk: &SC2KFileChunk)
        ensures
            final(self)@ == with_name(old(self)@, chunk.data@),
    {
        let data = chunk.data.as_slice();
        let n = data.len();
        let mut raw: Vec<u8> = Vec::new();
        let mut i: usize = 0;
        assert(data@.subrange(0, n as int) =~= data@);
        assert(raw@ + name_bytes(data@) =~= name_bytes(data@));
        while i < n
            invariant_except_break
                i <= n == data@.len(),
                name_bytes(data@) == raw@ + name_bytes(data@.subrange(i as int, n as int)),
            ensures
                name_bytes(data@) == raw@,
            decreases n - i,
        {
            let c = data[i];
            assert(data@.subrange(i as int, n as int).drop_first() =~= data@.subrange(
                i + 1,
                n as int,
            ));
            if c == 0 {
                assert(raw@ + Seq::<u8>::empty() =~= raw@);
                break ;
            }
            if c != 31 {
                let ghost before = raw@;
                raw.push(c);
                assert(before + (seq![c] + name_bytes(data@.subrange(i + 1, n as int))) =~= raw@
                    + name_bytes(data@.subrange(i + 1, n as int)));
            }
            i = i + 1;
        }
        proof {
            if i == n {
                assert(raw@ + Seq::<u8>::empty() =~= raw@);
            }
        }
        let len = raw.len();
        let mut a: usize = 0;
        while a < len && (9 <= raw[a] && raw[a] <= 13 || raw[a] == 32 || raw[a] == 0x85 || raw[a]
            == 0xA0)
            invariant
                a <= len == raw@.len(),
                forall|j: int| 0 <= j < a ==> is_space(#[trigger] raw@[j]),
            decreases len - a,
        {
            a = a + 1;
        }
        let mut b: usize = len;
        while b > a && (9 <= raw[b - 1] && raw[b - 1] <= 13 || raw[b - 1] == 32 || raw[b - 1]
            == 0x85 || raw[b - 1] == 0xA0)
            invariant
                a <= b <= len == raw@.len(),
                forall|j: int| b <= j < len ==> is_space(#[trigger] raw@[j]),
            decreases b - a,
        {
            b = b - 1;
        }
        proof {
            lemma_trim_start(raw@, a as int);
            let rest = raw@.subrange(a as int, len as int);
            lemma_trim_end(rest, b - a);
            assert(rest.subrange(0, b - a) =~= raw@.subrange(a as int, b as int));
        }
        self.name = latin1_string(raw.as_slice(), a, b);
    }

    /// Sets attribute `key` of the tile at row `y`, column `x`.
    fn insert_at(&mut self, y: usize, x: usize, key: &String, value: u8)
        requires
            old(self).wf(),
            y < MAP_SIZE,
            x < MAP_SIZE,
        ensures
            final(self).wf(),
            final(self).stats == old(self).stats,
            final(self).name == old(self).name,
            final(self)@.tiles == old(self)@.tiles.update(
                y as int,
                old(self)@.tiles[y as int].update(
                    x as int,
                    keyed_insert(old(self)@.tiles[y as int][x as int], key@, value),
                ),
            ),
    {
        assert(self@.tiles[y as int].len() == MAP_SIZE);
        assert(self.tiles@[y as int]@.len() == MAP_SIZE);
        self.tiles[y][x].insert(key, value);
        assert(self@.tiles =~~= old(self)@.tiles.update(
            y as int,
            old(self)@.tiles[y as int].update(
                x as int,
                keyed_insert(old(self)@.tiles[y as int][x as int], key@, value),
            ),
        ));
    }

    /// Extracts a one-byte-per-tile layer from a chunk: byte `i` of the
    /// payload becomes attribute `key` of tile `i` in row-major order. A
    /// payload shorter than the grid leaves the tiles past its end as they
    /// were; bytes past the grid are not read.
    pub fn extract_tiles(&mut self, chunk: &SC2KFileChunk, key: String) -> (r: Result<
        (),
        SC2KError,
    >)
        requires
            old(self).wf(),
        ensures
            r is Ok,
            final(self)@ == with_layer(old(self)@, key@, chunk.data@),
    {
        let data = chunk.data.as_slice();
        let ghost before = self@;
        let mut y: usize = 0;
        while y < MAP_SIZE
            invariant
                y <= MAP_SIZE,
                before == old(self)@,
                grid_wf(before.tiles),
                grid_wf(self@.tiles),
                data@ == chunk.data@,
                self.stats == before.stats,
                self.name@ == before.name,
                forall|r: int, c: int|
                    0 <= r < MAP_SIZE && 0 <= c < MAP_SIZE ==> #[trigger] self@.tiles[r][c] == (
                    if r < y {
                        layer_tile(before.tiles[r][c], key@, data@, r * MAP_SIZE + c)
                    } else {
                        before.tiles[r][c]
                    }),
            decreases MAP_SIZE - y,
        {
            let mut x: usize = 0;
            while x < MAP_SIZE
                invariant
                    x <= MAP_SIZE,
                    y < MAP_SIZE,
                    before == old(self)@,
                    grid_wf(before.tiles),
                    grid_wf(self@.tiles),
                    data@ == chunk.data@,
                    self.stats == before.stats,
                    self.name@ == before.name,
                    forall|r: int, c: int|
                        0 <= r < MAP_SIZE && 0 <= c < MAP_SIZE ==> #[trigger] self@.tiles[r][c]
                            == (if r < y || (r == y && c < x) {
                            layer_tile(before.tiles[r][c], key@, data@, r * MAP_SIZE + c)
                        } else {
                            before.tiles[r][c]
                        }),
                decreases MAP_SIZE - x,
            {
                let i = y * MAP_SIZE + x;
                if i < data.len() {
                    self.insert_at(y, x, &key, data[i]);
                }
                x = x + 1;
            }
            y = y + 1;
        }
        assert(self@.tiles =~~= with_layer(before, key@, data@).tiles);
        Ok(())
    }

    /// Extracts the altitude map from an ALTM chunk: the big-endian word
    /// `i` of the payload gives tile `i` in row-major order its altitude
    /// (`ALTM`, bits 0 to 3) and its water flag (`WATR`, bit 7). A payload
    /// shorter than the grid leaves the tiles past its end as they were;
    /// words past the grid are not read.
    ///
    /// # Errors
    ///
    /// * `ShortRecord` when the payload ends in half a word; the map is then
    ///   left as it was.
    pub fn extract_tiles_altm(&mut self, chunk: &SC2KFileChunk) -> (r: Result<(), SC2KError>)
        requires
            old(self).wf(),
        ensures
            match with_altitude(old(self)@, chunk.data@) {
                Ok(m) => r is Ok && final(self)@ == m,
                Err(e) => r == Err::<(), SC2KError>(e) && final(self)@ == old(self)@,
            },
    {
        let data = chunk.data.as_slice();
        if data.len() % 2 != 0 {
            return Err(SC2KError::ShortRecord);
        }
        let altm_key = String::from_str("ALTM");
        let watr_key = String::from_str("WATR");
        let ghost before = self@;
        let mut y: usize = 0;
        while y < MAP_SIZE
            invariant
                y <= MAP_SIZE,
                before == old(self)@,
                grid_wf(before.tiles),
                grid_wf(self@.tiles),
                data@ == chunk.data@,
                altm_key@ == "ALTM"@,
                watr_key@ == "WATR"@,
                self.stats == before.stats,
                self.name@ == before.name,
                forall|r: int, c: int|
                    0 <= r < MAP_SIZE && 0 <= c < MAP_SIZE ==> #[trigger] self@.tiles[r][c] == (
                    if r < y {
                        altitude_tile(before.tiles[r][c], data@, r * MAP_SIZE + c)
                    } else {
                        before.tiles[r][c]
                    }),
            decreases MAP_SIZE - y,
        {
            let mut x: usize = 0;
            while x < MAP_SIZE
                invariant
                    x <= MAP_SIZE,
                    y < MAP_SIZE,
                    before == old(self)@,
                    grid_wf(before.tiles),
                    grid_wf(self@.tiles),
                    data@ == chunk.data@,
                    altm_key@ == "ALTM"@,
                    watr_key@ == "WATR"@,
                    self.stats == before.stats,
                    self.name@ == before.name,
                    forall|r: int, c: int|
                        0 <= r < MAP_SIZE && 0 <= c < MAP_SIZE ==> #[trigger] self@.tiles[r][c]
                            == (if r < y || (r == y && c < x) {
                            altitude_tile(before.tiles[r][c], data@, r * MAP_SIZE + c)
                        } else {
                            before.tiles[r][c]
                        }),
                decreases MAP_SIZE - x,
            {
                let i = y * MAP_SIZE + x;
                if i < data.len() / 2 {
                    let w = u16_at(data, 2 * i);
                    let altitude = SC2KMap::extract_bits(w, 0, 4) as u8;
                    let water = SC2KMap::extract_bits(w, 7, 1) as u8;
                    proof {
                        lemma2_to64();
                    }
                    assert(altitude == altitude_of(w));
                    assert(water == water_of(w));
                    self.insert_at(y, x, &altm_key, altitude);
                    self.insert_at(y, x, &watr_key, water);
                }
                x = x + 1;
            }
            y = y + 1;
        }
        assert(self@.tiles =~~= with_altitude(before, data@)->Ok_0.tiles);
        Ok(())
    }

    /// Converts the map to JSON members: the name, the stats, and the
    /// tiles as an array of row objects, each an array of tile objects.
    pub fn to_json(&self) -> (r: String)
        ensures
            r@ == map_json(self@),
    {
        let ghost rows = self@.tiles.map_values(|row: Seq<TileView>| row_json(row));
        let mut list = String::new();
        let n = self.tiles.len();
        let mut y: usize = 0;
        assert(json_list(rows.take(0)) =~= list@);
        while y < n
            invariant
                y <= n == self@.tiles.len(),
                rows == self@.tiles.map_values(|row: Seq<TileView>| row_json(row)),
                list@ == json_list(rows.take(y as int)),
            decreases n - y,
        {
            let row = &self.tiles[y];
            let ghost tiles = self@.tiles[y as int].map_values(|t: TileView| tile_object(t));
            let mut cells = String::new();
            let m = row.len();
            let mut x: usize = 0;
            assert(json_list(tiles.take(0)) =~= cells@);
            while x < m
                invariant
                    x <= m == row@.len(),
                    self@.tiles[y as int].len() == m,
                    tiles == self@.tiles[y as int].map_values(|t: TileView| tile_object(t)),
                    self@.tiles[y as int] == row@.map_values(|t: SC2KMapTile| t@),
                    cells@ == json_list(tiles.take(x as int)),
                decreases m - x,
            {
                let ghost before = cells@;
                proof {
                    lemma_json_list_step(tiles, x as int);
                }
                if x > 0 {
                    cells.append(",");
                }
                let t = row[x].object_json();
                cells.append(t.as_str());
                assert(x > 0 ==> cells@ =~= before + ","@ + tiles[x as int]);
                assert(x == 0 ==> cells@ =~= tiles[x as int]);
                x = x + 1;
            }
            assert(tiles.take(m as int) =~= tiles);
            let ghost before = list@;
            proof {
                lemma_json_list_step(rows, y as int);
            }
            if y > 0 {
                list.append(",");
            }
            list.append("{\"row\":[");
            list.append(cells.as_str());
            list.append("]}");
            assert(y > 0 ==> list@ =~= before + ","@ + rows[y as int]);
            assert(y == 0 ==> list@ =~= rows[y as int]);
            y = y + 1;
        }
        assert(rows.take(n as int) =~= rows);
        let mut r = String::from_str("\"name\":\"");
        r.append(self.name.as_str());
        r.append("\",");
        let stats = self.stats.to_json();
        r.append(stats.as_str());
        r.append(",\"tiles\":[");
        r.append(list.as_str());
        r.append("]");
        r
    }
}

/// The JSON member of one attribute.
pub open spec fn attr_json(k: Seq<char>, v: u8) -> Seq<char> {
    "\""@ + k + "\":"@ + decimal(v as nat)
}

/// The JSON object of one tile's attributes, in order.
pub open spec fn tile_object(t: TileView) -> Seq<char> {
    "{"@ + json_list(t.map_values(|p: (Seq<char>, u8)| attr_json(p.0, p.1))) + "}"@
}

/// The JSON text of one tile as an item of its row: the object and a
/// separating comma.
pub open spec fn tile_json(t: TileView) -> Seq<char> {
    tile_object(t) + ","@
}

/// The JSON object of one row of tiles.
pub open spec fn row_json(row: Seq<TileView>) -> Seq<char> {
    "{\"row\":["@ + json_list(row.map_values(|t: TileView| tile_object(t))) + "]}"@
}

/// The JSON members of the map: name, stats and tiles.
pub open spec fn map_json(m: MapView) -> Seq<char> {
    "\"name\":\""@ + m.name + "\","@ + stats_json(m.stats) + ",\"tiles\":["@ + json_list(
        m.tiles.map_values(|row: Seq<TileView>| row_json(row)),
    ) + "]"@
}

impl SC2KMapTile {
    /// Converts the tile to a JSON object followed by a comma, ready to
    /// stand in a list of tiles: one member per attribute, in the order in
    /// which the attributes were first set (`{},` for a tile without any).
    pub fn to_json(&self) -> (r: String)
        ensures
            r@ == tile_json(self@),
    {
        let mut r = self.object_json();
        r.append(",");
        r
    }

    /// The JSON object of the tile's attributes.
    fn object_json(&self) -> (r: String)
        ensures
            r@ == tile_object(self@),
    {
        let ghost items = self@.map_values(|p: (Seq<char>, u8)| attr_json(p.0, p.1));
        let mut body = String::new();
        let n = self.attributes.len();
        let mut i: usize = 0;
        assert(json_list(items.take(0)) =~= body@);
        while i < n
            invariant
                i <= n == self@.len(),
                items == self@.map_values(|p: (Seq<char>, u8)| attr_json(p.0, p.1)),
                body@ == json_list(items.take(i as int)),
            decreases n - i,
        {
            let ghost before = body@;
            proof {
                lemma_json_list_step(items, i as int);
            }
            if i > 0 {
                body.append(",");
            }
            body.append("\"");
            body.append(self.attributes[i].0.as_str());
            body.append("\":");
            push_decimal(&mut body, self.attributes[i].1 as u32);
            assert(i > 0 ==> body@ =~= before + ","@ + items[i as int]);
            assert(i == 0 ==> body@ =~= items[i as int]);
            i = i + 1;
        }
        assert(items.take(n as int) =~= items);
        let mut r = String::from_str("{");
        r.append(body.as_str());
        r.append("}");
        r
    }
}

} // verus!
