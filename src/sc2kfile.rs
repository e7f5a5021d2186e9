use crate::bytes::{be_bytes_u32, be_u32, lemma_be_u32_round_trip, push_u32, u32_at};
use crate::error::SC2KError;
use crate::rle::{
    lemma_rle_round_trip, prefixed, repeat, rle_decode, rle_encode, rle_encode_from, rle_piece,
    run_end,
};
use crate::sc2kmap::{
    empty_map, grid_wf, keyed_insert, lemma_keyed_insert_at, lemma_keyed_insert_new, map_json,
    with_altitude, with_layer, with_name, with_stats, MapView, SC2KMap,
};
use crate::sc2kpict::{empty_pict, pict_result, PictView, SC2KPict};
use crate::text::{latin1, latin1_string};
use vstd::utf8::encode_utf8;
use vstd::prelude::*;

verus! {

/// SimCity 2000 chunk: a tag, the stored length of its payload, and the
/// payload as the extractors read it (decompressed where the tag is
/// compressed).
#[derive(Debug)]
pub struct SC2KFileChunk {
    pub id: String,
    pub length: u32,
    pub data: Vec<u8>,
}

impl SC2KFileChunk {
    /// A chunk whose stored length is the length of `data`.
    pub fn new(id: String, data: Vec<u8>) -> (r: SC2KFileChunk)
        requires
            data@.len() <= u32::MAX,
        ensures
            r.id@ == id@,
            r.data@ == data@,
            r.length == data@.len(),
    {
        let length = data.len() as u32;
        SC2KFileChunk { id, length, data }
    }
}

/// SimCity 2000 file: the container header, its chunks in the order in
/// which their tags first appear (a later chunk with the same tag replaces
/// the earlier one in place), and the model decoded from them.
#[derive(Debug)]
pub struct SC2KFile {
    pub path: String,
    pub chunks: Vec<SC2KFileChunk>,
    pub length: u32,
    pub file_type: u32,
    pub container: u32,
    pub map: SC2KMap,
    pub pict: SC2KPict,
}

impl SC2KFile {
    /// Decompresses a chunk payload. Each control byte `c` is followed by
    /// `c` literal bytes when below 128, by nothing when 128 (a no-op), and
    /// by one byte to repeat `c - 127` times when above 128.
    ///
    /// # Errors
    ///
    /// * `TruncatedInput` when a control byte promises more bytes than
    ///   remain.
    pub fn decompress_chunk(c_data: Vec<u8>) -> (r: Result<Vec<u8>, SC2KError>)
        ensures
            match rle_decode(c_data@) {
                Some(u) => r matches Ok(v) && v@ == u,
                None => r == Err::<Vec<u8>, SC2KError>(SC2KError::TruncatedInput),
            },
    {
        let n = c_data.len();
        let mut u_data: Vec<u8> = Vec::new();
        let mut i: usize = 0;
        assert(c_data@.subrange(0, n as int) =~= c_data@);
        assert(prefixed(u_data@, rle_decode(c_data@)) == rle_decode(c_data@)) by {
            if let Some(s) = rle_decode(c_data@) {
                assert(u_data@ + s =~= s);
            }
        }
        while i < n
            invariant
                i <= n == c_data@.len(),
                rle_decode(c_data@) == prefixed(
                    u_data@,
                    rle_decode(c_data@.subrange(i as int, n as int)),
                ),
            decreases n - i,
        {
            let ghost rest = c_data@.subrange(i as int, n as int);
            let ghost before = u_data@;
            let c = c_data[i];
            if c < 128 {
                let k = c as usize;
                if n - i - 1 < k {
                    return Err(SC2KError::TruncatedInput);
                }
                let mut j: usize = 0;
                while j < k
                    invariant
                        j <= k,
                        i + 1 + k <= n == c_data@.len(),
                        u_data@ == before + c_data@.subrange(i + 1, i + 1 + j),
                    decreases k - j,
                {
                    u_data.push(c_data[i + 1 + j]);
                    j = j + 1;
                    assert(u_data@ =~= before + c_data@.subrange(i + 1, i + 1 + j));
                }
                assert(rest.subrange(1 + k, rest.len() as int) =~= c_data@.subrange(
                    (i + 1 + k) as int,
                    n as int,
                ));
                assert(rest.subrange(1, 1 + k) =~= c_data@.subrange(i + 1, i + 1 + k));
                i = i + 1 + k;
            } else if c == 128 {
                assert(rest.subrange(1, rest.len() as int) =~= c_data@.subrange(i + 1, n as int));
                i = i + 1;
            } else {
                if n - i < 2 {
                    return Err(SC2KError::TruncatedInput);
                }
                let v = c_data[i + 1];
                let count = (c - 127) as usize;
                let mut j: usize = 0;
                while j < count
                    invariant
                        j <= count,
                        u_data@ == before + repeat(v, j as int),
                    decreases count - j,
                {
                    u_data.push(v);
                    j = j + 1;
                    assert(u_data@ =~= before + repeat(v, j as int));
                }
                assert(rest.subrange(2, rest.len() as int) =~= c_data@.subrange(i + 2, n as int));
                i = i + 2;
            }
            assert(rle_decode(c_data@) == prefixed(
                u_data@,
                rle_decode(c_data@.subrange(i as int, n as int)),
            )) by {
                if let Some(s) = rle_decode(c_data@.subrange(i as int, n as int)) {
                    assert(before + (u_data@.subrange(before.len() as int, u_data@.len() as int)
                        + s) =~= u_data@ + s);
                    assert(before + u_data@.subrange(before.len() as int, u_data@.len() as int)
                        =~= u_data@);
                }
            }
        }
        assert(c_data@.subrange(n as int, n as int) =~= Seq::<u8>::empty());
        assert(u_data@ + Seq::<u8>::empty() =~= u_data@);
        Ok(u_data)
    }

    /// Compresses a chunk payload, using only two token forms: each run of
    /// equal bytes, cut into pieces of at most 127, becomes a run control
    /// byte (127 + length) and the byte, and a piece of one byte becomes a
    /// one-byte literal (1 and the byte). Literal spans of several bytes are
    /// never emitted, so data without repeats doubles in size.
    /// Decompressing the result gives the payload back.
    pub fn compress_chunk(&self, chunk: &SC2KFileChunk) -> (r: Vec<u8>)
        ensures
            r@ == rle_encode(chunk.data@),
    {
        let x = chunk.data.as_slice();
        let n = x.len();
        let mut out: Vec<u8> = Vec::new();
        let mut s: usize = 0;
        assert(out@ + rle_encode_from(x@, 0) =~= rle_encode(x@));
        while s < n
            invariant
                s <= n == x@.len(),
                rle_encode(x@) == out@ + rle_encode_from(x@, s as int),
            decreases n - s,
        {
            let v = x[s];
            let mut e: usize = s + 1;
            while e < n && e - s < 127 && x[e] == v
                invariant
                    s < e <= n == x@.len(),
                    e - s <= 127,
                    v == x@[s as int],
                    run_end(x@, s as int, s + 1) == run_end(x@, s as int, e as int),
                decreases n - e,
            {
                e = e + 1;
            }
            let k = e - s;
            let ghost before = out@;
            if k >= 2 {
                out.push((127 + k) as u8);
                out.push(v);
            } else {
                out.push(1);
                out.push(v);
            }
            assert(out@ =~= before + rle_piece(v, k as int));
            assert(before + (rle_piece(v, k as int) + rle_encode_from(x@, e as int)) =~= out@
                + rle_encode_from(x@, e as int));
            s = e;
        }
        assert(out@ + Seq::<u8>::empty() =~= out@);
        out
    }
}

/// Tag of the city name chunk (stored raw).
pub const TAG_CNAM: u32 = 0x434E_414D;

/// Tag of the global statistics chunk.
pub const TAG_MISC: u32 = 0x4D49_5343;

/// Tag of the altitude map chunk (stored raw, one word per tile).
pub const TAG_ALTM: u32 = 0x414C_544D;

/// Tag of the picture chunk (stored raw).
pub const TAG_PICT: u32 = 0x5049_4354;

/// Tag of the buildings grid.
pub const TAG_XBLD: u32 = 0x5842_4C44;

/// Tag of the tile flags grid.
pub const TAG_XBIT: u32 = 0x5842_4954;

/// Tag of the terrain grid.
pub const TAG_XTER: u32 = 0x5854_4552;

/// Tag of the underground grid.
pub const TAG_XUND: u32 = 0x5855_4E44;

/// Tag of the zones grid.
pub const TAG_XZON: u32 = 0x585A_4F4E;

/// Tag of the police coverage grid.
pub const TAG_XPLC: u32 = 0x5850_4C43;

/// Tag of the fire coverage grid.
pub const TAG_XFIR: u32 = 0x5846_4952;

/// Tag of the population grid.
pub const TAG_XPOP: u32 = 0x5850_4F50;

/// Tag of the rate of growth grid.
pub const TAG_XROG: u32 = 0x5852_4F47;

/// Tag of the pollution grid.
pub const TAG_XPLT: u32 = 0x5850_4C54;

/// Tag of the land value grid.
pub const TAG_XVAL: u32 = 0x5856_414C;

/// Tag of the crime grid.
pub const TAG_XCRM: u32 = 0x5843_524D;

/// Tag of the traffic grid.
pub const TAG_XTRF: u32 = 0x5854_5246;

/// Bytes of the container header: file type, declared length, marker.
pub const HEADER_LEN: usize = 12;

/// The tags of the one-byte-per-tile grid chunks (buildings, flags,
/// terrain, underground, zones, police, fire, population, growth,
/// pollution, land value, crime, traffic).
pub open spec fn is_grid_tag(t: u32) -> bool {
    t == TAG_XBLD || t == TAG_XBIT || t == TAG_XTER || t == TAG_XUND || t == TAG_XZON || t
        == TAG_XPLC || t == TAG_XFIR || t == TAG_XPOP || t == TAG_XROG || t == TAG_XPLT || t
        == TAG_XVAL || t == TAG_XCRM || t == TAG_XTRF
}

/// The tags whose payload is stored compressed: the statistics and the
/// grids. The name, the altitude map, the picture and unknown tags are
/// stored raw.
pub open spec fn is_compressed_tag(t: u32) -> bool {
    t == TAG_MISC || is_grid_tag(t)
}

/// The four characters of a tag.
pub open spec fn tag_chars(t: u32) -> Seq<char> {
    latin1(be_bytes_u32(t))
}

/// `r` with the frames `p` in front, if there is an `r`.
pub open spec fn frames_after(p: Seq<(u32, Seq<u8>)>, r: Option<Seq<(u32, Seq<u8>)>>) -> Option<
    Seq<(u32, Seq<u8>)>,
> {
    match r {
        Some(s) => Some(p + s),
        None => None,
    }
}

/// The chunks, as tag and stored payload, that tile `b[pos..end]`
/// exactly, or `None` where a chunk's header or payload would run past
/// `end`.
pub open spec fn chunk_frames(b: Seq<u8>, pos: int, end: int) -> Option<Seq<(u32, Seq<u8>)>>
    decreases end - pos,
{
    if pos >= end {
        if pos == end {
            Some(Seq::empty())
        } else {
            None
        }
    } else if pos + 8 > end {
        None
    } else {
        let size = be_u32(b, pos + 4) as int;
        if pos + 8 + size > end {
            None
        } else {
            frames_after(
                seq![(be_u32(b, pos), b.subrange(pos + 8, pos + 8 + size))],
                chunk_frames(b, pos + 8 + size, end),
            )
        }
    }
}

/// Where the chunks of a container with declared length `length` end: the
/// declared length counts the marker and the chunks.
pub open spec fn chunks_end(length: u32) -> int {
    HEADER_LEN + length - 4
}

/// The total of the chunk framing (tag, length, payload) of `fr`.
pub open spec fn framing_total(fr: Seq<(u32, Seq<u8>)>) -> int
    decreases fr.len(),
{
    if fr.len() == 0 {
        0
    } else {
        8 + fr[0].1.len() + framing_total(fr.drop_first())
    }
}

/// A chunk as values: tag characters, then stored length and payload.
pub type ChunkView = (Seq<char>, (u32, Seq<u8>));

/// The file as values (its path aside).
pub struct FileView {
    pub file_type: u32,
    pub length: u32,
    pub container: u32,
    pub chunks: Seq<ChunkView>,
    pub map: MapView,
    pub pict: PictView,
}

impl View for SC2KFile {
    type V = FileView;

    open spec fn view(&self) -> FileView {
        FileView {
            file_type: self.file_type,
            length: self.length,
            container: self.container,
            chunks: self.chunks@.map_values(|c: SC2KFileChunk| (c.id@, (c.length, c.data@))),
            map: self.map@,
            pict: self.pict@,
        }
    }
}

/// The file before any chunk.
pub open spec fn initial_file(file_type: u32, length: u32, container: u32) -> FileView {
    FileView {
        file_type,
        length,
        container,
        chunks: Seq::empty(),
        map: empty_map(),
        pict: empty_pict(),
    }
}

/// `f` with new chunks, map and picture.
pub open spec fn file_with(
    f: FileView,
    chunks: Seq<ChunkView>,
    map: MapView,
    pict: PictView,
) -> FileView {
    FileView { file_type: f.file_type, length: f.length, container: f.container, chunks, map, pict }
}

/// The payload that the extractors read: decompressed for a compressed
/// tag, else as stored.
pub open spec fn decoded_payload(tag: u32, payload: Seq<u8>) -> Option<Seq<u8>> {
    if is_compressed_tag(tag) {
        rle_decode(payload)
    } else {
        Some(payload)
    }
}

/// `f` after one chunk: its payload is decoded and handed to the extractor
/// of its tag (none for an unknown tag), and the chunk is recorded under
/// its tag, replacing an earlier one with the same tag.
#[verifier::opaque]
pub open spec fn apply_frame(f: FileView, tag: u32, payload: Seq<u8>) -> Result<
    FileView,
    SC2KError,
> {
    match decoded_payload(tag, payload) {
        None => Err(SC2KError::TruncatedInput),
        Some(data) => {
            let id = tag_chars(tag);
            let chunks = keyed_insert(f.chunks, id, (payload.len() as u32, data));
            if tag == TAG_PICT {
                match pict_result(data) {
                    Ok(p) => Ok(file_with(f, chunks, f.map, p)),
                    Err(e) => Err(e),
                }
            } else if tag == TAG_CNAM {
                Ok(file_with(f, chunks, with_name(f.map, data), f.pict))
            } else if tag == TAG_MISC {
                match with_stats(f.map, data) {
                    Ok(m) => Ok(file_with(f, chunks, m, f.pict)),
                    Err(e) => Err(e),
                }
            } else if tag == TAG_ALTM {
                match with_altitude(f.map, data) {
                    Ok(m) => Ok(file_with(f, chunks, m, f.pict)),
                    Err(e) => Err(e),
                }
            } else if is_grid_tag(tag) {
                Ok(file_with(f, chunks, with_layer(f.map, id, data), f.pict))
            } else {
                Ok(file_with(f, chunks, f.map, f.pict))
            }
        },
    }
}

/// `f` after the chunks `fr`, in order, or the first error.
pub open spec fn apply_frames(f: FileView, fr: Seq<(u32, Seq<u8>)>) -> Result<FileView, SC2KError>
    decreases fr.len(),
{
    if fr.len() == 0 {
        Ok(f)
    } else {
        match apply_frames(f, fr.drop_last()) {
            Ok(g) => apply_frame(g, fr.last().0, fr.last().1),
            Err(e) => Err(e),
        }
    }
}

/// What reading the bytes of a city file gives. The header must be
/// complete, the declared length must cover the four bytes of the marker,
/// and the chunks must tile the rest of it exactly, within the bytes
/// (`TruncatedChunk` otherwise); then the chunks are applied in order.
pub open spec fn sc2k_parse(b: Seq<u8>) -> Result<FileView, SC2KError> {
    if b.len() < HEADER_LEN {
        Err(SC2KError::TruncatedChunk)
    } else {
        let length = be_u32(b, 4);
        let end = chunks_end(length);
        if length < 4 || end > b.len() {
            Err(SC2KError::TruncatedChunk)
        } else {
            match chunk_frames(b, HEADER_LEN as int, end) {
                None => Err(SC2KError::TruncatedChunk),
                Some(fr) => apply_frames(initial_file(be_u32(b, 0), length, be_u32(b, 8)), fr),
            }
        }
    }
}

/// Whether `t` is the tag of a one-byte-per-tile grid chunk.
fn grid_tag(t: u32) -> (r: bool)
    ensures
        r == is_grid_tag(t),
{
    t == TAG_XBLD || t == TAG_XBIT || t == TAG_XTER || t == TAG_XUND || t == TAG_XZON || t
        == TAG_XPLC || t == TAG_XFIR || t == TAG_XPOP || t == TAG_XROG || t == TAG_XPLT || t
        == TAG_XVAL || t == TAG_XCRM || t == TAG_XTRF
}

/// The four characters of a tag, one per byte.
fn tag_string(t: u32) -> (r: String)
    ensures
        r@ == tag_chars(t),
{
    let mut b: Vec<u8> = Vec::new();
    push_u32(&mut b, t);
    assert(b@ =~= be_bytes_u32(t));
    assert(b@.subrange(0, 4) =~= b@);
    latin1_string(b.as_slice(), 0, 4)
}

impl SC2KFile {
    /// Records `chunk` under its tag: in place of an earlier chunk with the
    /// same tag, else after the others.
    fn insert_chunk(&mut self, chunk: SC2KFileChunk)
        ensures
            final(self)@ == file_with(
                old(self)@,
                keyed_insert(old(self)@.chunks, chunk.id@, (chunk.length, chunk.data@)),
                old(self)@.map,
                old(self)@.pict,
            ),
            final(self).map == old(self).map,
            final(self).path == old(self).path,
    {
        let n = self.chunks.len();
        let mut i: usize = 0;
        while i < n
            invariant
                n == self.chunks@.len(),
                *self == *old(self),
                i <= n,
                forall|j: int| 0 <= j < i ==> (#[trigger] self@.chunks[j]).0 != chunk.id@,
            decreases n - i,
        {
            if self.chunks[i].id == chunk.id {
                proof {
                    let v = (chunk.length, chunk.data@);
                    lemma_keyed_insert_at(self@.chunks, chunk.id@, v, i as int);
                }
                let ghost v = (chunk.id@, (chunk.length, chunk.data@));
                self.chunks[i] = chunk;
                assert(self@.chunks =~= old(self)@.chunks.update(i as int, v));
                return ;
            }
            i = i + 1;
        }
        proof {
            lemma_keyed_insert_new(self@.chunks, chunk.id@, (chunk.length, chunk.data@));
        }
        let ghost v = (chunk.id@, (chunk.length, chunk.data@));
        self.chunks.push(chunk);
        assert(self@.chunks =~= old(self)@.chunks.push(v));
    }

    /// Reads one chunk: decodes its payload, hands it to the extractor of
    /// its tag, and records it.
    fn read_chunk(&mut self, tag: u32, payload: Vec<u8>) -> (r: Result<(), SC2KError>)
        requires
            old(self).map.wf(),
            payload@.len() <= u32::MAX,
        ensures
            final(self).map.wf(),
            final(self).path == old(self).path,
            match apply_frame(old(self)@, tag, payload@) {
                Ok(v) => r is Ok && final(self)@ == v,
                Err(e) => r == Err::<(), SC2KError>(e),
            },
    {
        reveal(apply_frame);
        let length = payload.len() as u32;
        let data = if tag == TAG_MISC || grid_tag(tag) {
            match SC2KFile::decompress_chunk(payload) {
                Ok(d) => d,
                Err(e) => return Err(e),
            }
        } else {
            payload
        };
        let id = tag_string(tag);
        let chunk = SC2KFileChunk { id, length, data };
        if tag == TAG_PICT {
            match self.pict.extract_data(&chunk) {
                Ok(()) => {},
                Err(e) => return Err(e),
            }
        } else if tag == TAG_CNAM {
            self.map.extract_name(&chunk);
        } else if tag == TAG_MISC {
            match self.map.extract_stats(&chunk) {
                Ok(()) => {},
                Err(e) => return Err(e),
            }
        } else if tag == TAG_ALTM {
            match self.map.extract_tiles_altm(&chunk) {
                Ok(()) => {},
                Err(e) => return Err(e),
            }
        } else if grid_tag(tag) {
            let key = chunk.id.clone();
            match self.map.extract_tiles(&chunk, key) {
                Ok(()) => {},
                Err(e) => return Err(e),
            }
        }
        assert(grid_wf(self.map@.tiles));
        self.insert_chunk(chunk);
        Ok(())
    }
}

/// The tag and stored payload of each framed chunk.
pub open spec fn frames_view(b: Seq<u8>, fr: Seq<(u32, usize, usize)>) -> Seq<(u32, Seq<u8>)> {
    fr.map_values(|f: (u32, usize, usize)| (f.0, b.subrange(f.1 as int, f.1 + f.2)))
}

/// Splits the chunk region `b[12..end]` into chunks: tag, start and size
/// of each payload.
fn frame_chunks(b: &[u8], end: usize) -> (r: Result<Vec<(u32, usize, usize)>, SC2KError>)
    requires
        HEADER_LEN <= end <= b@.len(),
    ensures
        match chunk_frames(b@, HEADER_LEN as int, end as int) {
            Some(fr) => r matches Ok(v) && frames_view(b@, v@) == fr && forall|k: int|
                0 <= k < v@.len() ==> #[trigger] v@[k].1 + v@[k].2 <= b@.len() && v@[k].2
                    <= u32::MAX,
            None => r == Err::<Vec<(u32, usize, usize)>, SC2KError>(SC2KError::TruncatedChunk),
        },
{
    let mut frames: Vec<(u32, usize, usize)> = Vec::new();
    let mut pos: usize = HEADER_LEN;
    assert(frames_view(b@, frames@) =~= Seq::<(u32, Seq<u8>)>::empty());
    assert(frames_after(frames_view(b@, frames@), chunk_frames(b@, HEADER_LEN as int, end as int))
        == chunk_frames(b@, HEADER_LEN as int, end as int)) by {
        if let Some(s) = chunk_frames(b@, HEADER_LEN as int, end as int) {
            assert(Seq::<(u32, Seq<u8>)>::empty() + s =~= s);
        }
    }
    while pos < end
        invariant
            HEADER_LEN <= pos <= end <= b@.len(),
            chunk_frames(b@, HEADER_LEN as int, end as int) == frames_after(
                frames_view(b@, frames@),
                chunk_frames(b@, pos as int, end as int),
            ),
            forall|k: int|
                0 <= k < frames@.len() ==> #[trigger] frames@[k].1 + frames@[k].2 <= b@.len()
                    && frames@[k].2 <= u32::MAX,
        decreases end - pos,
    {
        if end - pos < 8 {
            return Err(SC2KError::TruncatedChunk);
        }
        let tag = u32_at(b, pos);
        let size = u32_at(b, pos + 4) as usize;
        if end - pos - 8 < size {
            return Err(SC2KError::TruncatedChunk);
        }
        let ghost before = frames_view(b@, frames@);
        let ghost item = (tag, b@.subrange(pos + 8, pos + 8 + size));
        frames.push((tag, pos + 8, size));
        assert(frames_view(b@, frames@) =~= before.push(item));
        pos = pos + 8 + size;
        let ghost tail = chunk_frames(b@, pos as int, end as int);
        assert(frames_after(before, frames_after(seq![item], tail)) == frames_after(
            frames_view(b@, frames@),
            tail,
        )) by {
            if let Some(s) = chunk_frames(b@, pos as int, end as int) {
                assert(before + (seq![item] + s) =~= before.push(item) + s);
            }
        }
    }
    assert(frames_view(b@, frames@) + Seq::<(u32, Seq<u8>)>::empty() =~= frames_view(b@, frames@));
    Ok(frames)
}

/// Applying one more chunk of `fr` applies it to what the prefix gave.
proof fn lemma_apply_frames_step(f: FileView, fr: Seq<(u32, Seq<u8>)>, k: int)
    requires
        0 <= k < fr.len(),
    ensures
        apply_frames(f, fr.take(k + 1)) == match apply_frames(f, fr.take(k)) {
            Ok(g) => apply_frame(g, fr[k].0, fr[k].1),
            Err(e) => Err(e),
        },
{
    assert(fr.take(k + 1).drop_last() =~= fr.take(k));
    assert(fr.take(k + 1).last() == fr[k]);
}

/// Once a prefix of the chunks fails, applying all of them fails the same way.
proof fn lemma_apply_frames_err(f: FileView, fr: Seq<(u32, Seq<u8>)>, k: int, e: SC2KError)
    requires
        0 <= k <= fr.len(),
        apply_frames(f, fr.take(k)) == Err::<FileView, SC2KError>(e),
    ensures
        apply_frames(f, fr) == Err::<FileView, SC2KError>(e),
    decreases fr.len() - k,
{
    if k == fr.len() {
        assert(fr.take(k) =~= fr);
    } else {
        assert(fr.take(k + 1).drop_last() =~= fr.take(k));
        lemma_apply_frames_err(f, fr, k + 1, e);
    }
}

impl SC2KFile {
    /// Reads a SimCity 2000 file from its bytes; `path` is kept as the
    /// file's path.
    ///
    /// # Errors
    ///
    /// * `TruncatedChunk` when the header is cut short or the chunks do not
    ///   tile the declared length within the bytes.
    /// * `TruncatedInput` when a compressed payload is truncated.
    /// * `ShortRecord` when a record payload is shorter than its layout.
    pub fn from(path: String, bytes: &[u8]) -> (r: Result<SC2KFile, SC2KError>)
        ensures
            match r {
                Ok(f) => sc2k_parse(bytes@) == Ok::<FileView, SC2KError>(f@) && f.path@ == path@
                    && f.map.wf(),
                Err(e) => sc2k_parse(bytes@) == Err::<FileView, SC2KError>(e),
            },
    {
        let mut sc2k_file = SC2KFile {
            path,
            chunks: Vec::new(),
            length: 0,
            file_type: 0,
            container: 0,
            map: SC2KMap::default(),
            pict: SC2KPict::default(),
        };
        match sc2k_file.read_sc2k_file(bytes) {
            Ok(()) => Ok(sc2k_file),
            Err(e) => Err(e),
        }
    }

    /// Reads the header, frames the chunks, then reads them in order.
    fn read_sc2k_file(&mut self, bytes: &[u8]) -> (r: Result<(), SC2KError>)
        requires
            old(self).chunks@.len() == 0,
            old(self).map@ == empty_map(),
            old(self).pict@ == empty_pict(),
        ensures
            final(self).path == old(self).path,
            final(self).map.wf(),
            match sc2k_parse(bytes@) {
                Ok(v) => r is Ok && final(self)@ == v,
                Err(e) => r == Err::<(), SC2KError>(e),
            },
    {
        if bytes.len() < HEADER_LEN {
            return Err(SC2KError::TruncatedChunk);
        }
        self.file_type = u32_at(bytes, 0);
        self.length = u32_at(bytes, 4);
        self.container = u32_at(bytes, 8);
        if self.length < 4 {
            return Err(SC2KError::TruncatedChunk);
        }
        let end64: u64 = HEADER_LEN as u64 + self.length as u64 - 4;
        if end64 > bytes.len() as u64 {
            return Err(SC2KError::TruncatedChunk);
        }
        let end = end64 as usize;
        let frames = match frame_chunks(bytes, end) {
            Ok(f) => f,
            Err(e) => return Err(e),
        };
        let ghost fr = frames_view(bytes@, frames@);
        let ghost start = initial_file(self.file_type, self.length, self.container);
        assert(self@.chunks =~= Seq::<ChunkView>::empty());
        assert(self@ == start);
        assert(sc2k_parse(bytes@) == apply_frames(start, fr));
        assert(fr.take(0) =~= Seq::<(u32, Seq<u8>)>::empty());
        let mut k: usize = 0;
        while k < frames.len()
            invariant
                k <= frames@.len(),
                fr == frames_view(bytes@, frames@),
                sc2k_parse(bytes@) == apply_frames(start, fr),
                forall|j: int|
                    0 <= j < frames@.len() ==> #[trigger] frames@[j].1 + frames@[j].2
                        <= bytes@.len() && frames@[j].2 <= u32::MAX,
                self.map.wf(),
                self.path == old(self).path,
                apply_frames(start, fr.take(k as int)) == Ok::<FileView, SC2KError>(self@),
            decreases frames@.len() - k,
        {
            let (tag, at, size) = frames[k];
            assert(frames@[k as int].1 + frames@[k as int].2 <= bytes@.len());
            assert(at == frames@[k as int].1 && size == frames@[k as int].2);
            let total = bytes.len();
            assert(at + size <= total);
            let stored = vstd::slice::slice_subrange(bytes, at, at + size);
            let payload = vstd::slice::slice_to_vec(stored);
            let ghost before = self@;
            proof {
                assert(fr[k as int] == (tag, payload@));
                lemma_apply_frames_step(start, fr, k as int);
            }
            let step = self.read_chunk(tag, payload);
            match step {
                Ok(()) => {},
                Err(e) => {
                    proof {
                        lemma_apply_frames_err(start, fr, k + 1, e);
                    }
                    return Err(e);
                },
            }
            k = k + 1;
        }
        assert(fr.take(k as int) =~= fr);
        Ok(())
    }
}

proof fn lemma_frames_total(b: Seq<u8>, pos: int, end: int)
    requires
        0 <= pos,
        end <= b.len(),
    ensures
        chunk_frames(b, pos, end) matches Some(fr) ==> framing_total(fr) == end - pos,
    decreases end - pos,
{
    if pos < end && pos + 8 <= end {
        let size = be_u32(b, pos + 4) as int;
        if pos + 8 + size <= end {
            lemma_frames_total(b, pos + 8 + size, end);
            if let Some(rest) = chunk_frames(b, pos + 8 + size, end) {
                let item = (be_u32(b, pos), b.subrange(pos + 8, pos + 8 + size));
                assert((seq![item] + rest).drop_first() =~= rest);
            }
        }
    }
}

/// The declared length is enforced: a file that reads has chunks whose
/// framing (tag, length, payload) adds up exactly to the declared length
/// less the four bytes of the marker, within its bytes; and a file whose
/// chunks do not tile that span within its bytes (a declared length below
/// four included) fails with `TruncatedChunk`.
pub proof fn lemma_declared_length_enforced(b: Seq<u8>)
    ensures
        sc2k_parse(b) is Ok ==> (b.len() >= HEADER_LEN && be_u32(b, 4) >= 4 && chunks_end(
            be_u32(b, 4),
        ) <= b.len() && (chunk_frames(b, HEADER_LEN as int, chunks_end(be_u32(b, 4))) matches Some(
            fr,
        ) && framing_total(fr) == be_u32(b, 4) - 4)),
        !(b.len() >= HEADER_LEN && be_u32(b, 4) >= 4 && chunks_end(be_u32(b, 4)) <= b.len()
            && chunk_frames(b, HEADER_LEN as int, chunks_end(be_u32(b, 4))) is Some) ==> sc2k_parse(b)
            == Err::<FileView, SC2KError>(SC2KError::TruncatedChunk),
{
    if b.len() >= HEADER_LEN && be_u32(b, 4) >= 4 && chunks_end(be_u32(b, 4)) <= b.len() {
        lemma_frames_total(b, HEADER_LEN as int, chunks_end(be_u32(b, 4)));
    }
}

/// The payload as written back: compressed for a compressed tag, else as
/// held.
pub open spec fn stored_payload(tag: u32, data: Seq<u8>) -> Seq<u8> {
    if is_compressed_tag(tag) {
        rle_encode(data)
    } else {
        data
    }
}

/// One chunk written out (tag bytes, big-endian length, stored payload),
/// or `None` where its tag is not four bytes.
pub open spec fn encode_chunk(c: ChunkView) -> Option<Seq<u8>> {
    let tb = encode_utf8(c.0);
    if tb.len() != 4 {
        None
    } else {
        let p = stored_payload(be_u32(tb, 0), c.1.1);
        Some(tb + be_bytes_u32(p.len() as u32) + p)
    }
}

/// The chunks `cs` written one after the other, or `None` where a tag is
/// not four bytes.
#[verifier::opaque]
pub open spec fn encode_chunks(cs: Seq<ChunkView>) -> Option<Seq<u8>>
    decreases cs.len(),
{
    if cs.len() == 0 {
        Some(Seq::empty())
    } else {
        match (encode_chunks(cs.drop_last()), encode_chunk(cs.last())) {
            (Some(body), Some(last)) => Some(body + last),
            _ => None,
        }
    }
}

proof fn lemma_encode_step(cs: Seq<ChunkView>, k: int)
    requires
        0 <= k < cs.len(),
    ensures
        encode_chunks(cs.take(k + 1)) == match (encode_chunks(cs.take(k)), encode_chunk(cs[k])) {
            (Some(body), Some(last)) => Some(body + last),
            _ => None,
        },
{
    reveal(encode_chunks);
    assert(cs.take(k + 1).drop_last() =~= cs.take(k));
    assert(cs.take(k + 1).last() == cs[k]);
}

/// The bytes of a container holding `f`: the header (file type, the
/// length of marker and chunks, marker) and the chunks in order; or
/// `Unsupported` where a tag is not four bytes or the length does not fit
/// a `u32`.
pub open spec fn encode_file(f: FileView) -> Result<Seq<u8>, SC2KError> {
    match encode_chunks(f.chunks) {
        None => Err(SC2KError::Unsupported),
        Some(body) => if 4 + body.len() > u32::MAX {
            Err(SC2KError::Unsupported)
        } else {
            Ok(
                be_bytes_u32(f.file_type) + be_bytes_u32((4 + body.len()) as u32) + be_bytes_u32(
                    f.container,
                ) + body,
            )
        },
    }
}

proof fn lemma_encode_prefix(cs: Seq<ChunkView>, k: int, j: int)
    requires
        0 <= k <= j <= cs.len(),
        encode_chunks(cs.take(j)) is Some,
    ensures
        encode_chunks(cs.take(k)) is Some,
        encode_chunks(cs.take(k))->Some_0.len() <= encode_chunks(cs.take(j))->Some_0.len(),
    decreases j - k,
{
    if k < j {
        lemma_encode_step(cs, j - 1);
        lemma_encode_prefix(cs, k, j - 1);
    }
}

impl SC2KFile {
    /// Writes the file back as a container: the header, then each chunk
    /// in order with its payload compressed again where its tag is
    /// compressed and as held otherwise. The declared length is that of
    /// what is written.
    ///
    /// # Errors
    ///
    /// * `Unsupported` when a chunk's tag is not four bytes, or the
    ///   container's length does not fit a `u32`.
    pub fn encode(&self) -> (r: Result<Vec<u8>, SC2KError>)
        ensures
            match encode_file(self@) {
                Ok(b) => r matches Ok(v) && v@ == b,
                Err(e) => r == Err::<Vec<u8>, SC2KError>(e),
            },
    {
        let n = self.chunks.len();
        let ghost cs = self@.chunks;
        let mut body: Vec<u8> = Vec::new();
        let mut k: usize = 0;
        assert(encode_chunks(cs.take(0)) == Some(body@)) by {
            reveal(encode_chunks);
            assert(cs.take(0) =~= Seq::<ChunkView>::empty());
            assert(body@ =~= Seq::<u8>::empty());
        }
        while k < n
            invariant
                k <= n == cs.len(),
                cs == self@.chunks,
                encode_chunks(cs.take(k as int)) == Some(body@),
                4 + body@.len() <= u32::MAX,
            decreases n - k,
        {
            let c = &self.chunks[k];
            let tb = c.id.as_str().as_bytes();
            proof {
                lemma_encode_step(cs, k as int);
                assert(cs[k as int].0 == c.id@);
                assert(tb@ == encode_utf8(cs[k as int].0));
            }
            if tb.len() != 4 {
                proof {
                    if encode_chunks(cs) is Some {
                        assert(cs.take(n as int) =~= cs);
                        lemma_encode_prefix(cs, k + 1, n as int);
                    }
                }
                return Err(SC2KError::Unsupported);
            }
            let tag = u32_at(tb, 0);
            let mut payload: Vec<u8> = if tag == TAG_MISC || grid_tag(tag) {
                self.compress_chunk(c)
            } else {
                vstd::slice::slice_to_vec(c.data.as_slice())
            };
            assert(payload@ == stored_payload(tag, cs[k as int].1.1));
            let plen = payload.len();
            if plen as u64 > 0xFFFF_FFFF || body.len() as u64 + 12 + plen as u64 > 0xFFFF_FFFF {
                proof {
                    if encode_chunks(cs) is Some {
                        assert(cs.take(n as int) =~= cs);
                        lemma_encode_prefix(cs, k + 1, n as int);
                    }
                }
                return Err(SC2KError::Unsupported);
            }
            let ghost before = body@;
            let mut t = vstd::slice::slice_to_vec(tb);
            body.append(&mut t);
            push_u32(&mut body, plen as u32);
            body.append(&mut payload);
            assert(body@ =~= before + (tb@ + be_bytes_u32(plen as u32) + stored_payload(
                tag,
                cs[k as int].1.1,
            )));
            k = k + 1;
        }
        assert(cs.take(n as int) =~= cs);
        let mut out: Vec<u8> = Vec::new();
        push_u32(&mut out, self.file_type);
        push_u32(&mut out, (4 + body.len()) as u32);
        push_u32(&mut out, self.container);
        out.append(&mut body);
        Ok(out)
    }
}

/// The JSON object of a file: the members of its map.
pub open spec fn file_json(f: FileView) -> Seq<char> {
    "{"@ + map_json(f.map) + "}"@
}

impl SC2KFile {
    /// Converts the map data to a JSON object with the name, the stats and
    /// the tiles.
    pub fn to_json(&self) -> (r: String)
        ensures
            r@ == file_json(self@),
    {
        let mut r = String::from_str("{");
        let m = self.map.to_json();
        r.append(m.as_str());
        r.append("}");
        r
    }
}

/// The tag and stored payload under which each chunk of `cs` is written.
pub open spec fn written_frames(cs: Seq<ChunkView>) -> Seq<(u32, Seq<u8>)> {
    cs.map_values(
        |c: ChunkView|
            (be_u32(encode_utf8(c.0), 0), stored_payload(be_u32(encode_utf8(c.0), 0), c.1.1)),
    )
}

proof fn lemma_frames_concat(b: Seq<u8>, p: int, q: int, r: int)
    requires
        0 <= p,
        r <= b.len(),
        chunk_frames(b, p, q) is Some,
        chunk_frames(b, q, r) is Some,
    ensures
        chunk_frames(b, p, r) == Some(
            chunk_frames(b, p, q)->Some_0 + chunk_frames(b, q, r)->Some_0,
        ),
    decreases q - p,
{
    let a = chunk_frames(b, p, q)->Some_0;
    let c = chunk_frames(b, q, r)->Some_0;
    if p >= q {
        assert(a =~= Seq::<(u32, Seq<u8>)>::empty());
        assert(a + c =~= c);
    } else {
        let size = be_u32(b, p + 4) as int;
        lemma_frames_concat(b, p + 8 + size, q, r);
        let item = (be_u32(b, p), b.subrange(p + 8, p + 8 + size));
        let rest = chunk_frames(b, p + 8 + size, q)->Some_0;
        assert(seq![item] + (rest + c) =~= (seq![item] + rest) + c);
    }
}

proof fn lemma_frames_single(b: Seq<u8>, p: int, tb: Seq<u8>, payload: Seq<u8>)
    requires
        0 <= p,
        tb.len() == 4,
        payload.len() <= u32::MAX,
        p + 8 + payload.len() <= b.len(),
        b.subrange(p, p + 8 + payload.len()) == tb + be_bytes_u32(payload.len() as u32) + payload,
    ensures
        chunk_frames(b, p, p + 8 + payload.len()) == Some(seq![(be_u32(tb, 0), payload)]),
{
    let end = p + 8 + payload.len();
    let lb = be_bytes_u32(payload.len() as u32);
    let w = tb + lb + payload;
    assert(b[p] == tb[0]) by { assert(b.subrange(p, end)[0] == b[p]); }
    assert(b[p + 1] == tb[1]) by { assert(b.subrange(p, end)[1] == b[p + 1]); }
    assert(b[p + 2] == tb[2]) by { assert(b.subrange(p, end)[2] == b[p + 2]); }
    assert(b[p + 3] == tb[3]) by { assert(b.subrange(p, end)[3] == b[p + 3]); }
    assert(b[p + 4] == lb[0]) by { assert(b.subrange(p, end)[4] == b[p + 4]); }
    assert(b[p + 5] == lb[1]) by { assert(b.subrange(p, end)[5] == b[p + 5]); }
    assert(b[p + 6] == lb[2]) by { assert(b.subrange(p, end)[6] == b[p + 6]); }
    assert(b[p + 7] == lb[3]) by { assert(b.subrange(p, end)[7] == b[p + 7]); }
    lemma_be_u32_round_trip(payload.len() as u32);
    assert(be_u32(b, p + 4) == be_u32(lb, 0));
    assert(b.subrange(p + 8, end) =~= payload) by {
        assert forall|i: int| 0 <= i < payload.len() implies b.subrange(p + 8, end)[i]
            == payload[i] by {
            assert(b.subrange(p, end)[8 + i] == b[p + 8 + i]);
            assert(w[8 + i] == payload[i]);
        }
    }
    assert(chunk_frames(b, end, end) == Some(Seq::<(u32, Seq<u8>)>::empty()));
    assert(seq![(be_u32(tb, 0), payload)] + Seq::<(u32, Seq<u8>)>::empty() =~= seq![
        (be_u32(tb, 0), payload),
    ]);
}

proof fn lemma_encode_chunks_frames(cs: Seq<ChunkView>, b: Seq<u8>, p: int)
    requires
        encode_chunks(cs) is Some,
        encode_chunks(cs)->Some_0.len() <= u32::MAX,
        0 <= p,
        p + encode_chunks(cs)->Some_0.len() <= b.len(),
        b.subrange(p, p + encode_chunks(cs)->Some_0.len()) == encode_chunks(cs)->Some_0,
    ensures
        chunk_frames(b, p, p + encode_chunks(cs)->Some_0.len()) == Some(written_frames(cs)),
    decreases cs.len(),
{
    reveal(encode_chunks);
    let e = encode_chunks(cs)->Some_0;
    if cs.len() == 0 {
        assert(written_frames(cs) =~= Seq::<(u32, Seq<u8>)>::empty());
    } else {
        let front = cs.drop_last();
        let e1 = encode_chunks(front)->Some_0;
        let last = encode_chunk(cs.last())->Some_0;
        assert(e == e1 + last);
        assert(b.subrange(p, p + e1.len()) =~= e1) by {
            let whole = b.subrange(p, p + e.len());
            assert(b.subrange(p, p + e1.len()) =~= whole.subrange(0, e1.len() as int));
        }
        lemma_encode_chunks_frames(front, b, p);
        let tb = encode_utf8(cs.last().0);
        let payload = stored_payload(be_u32(tb, 0), cs.last().1.1);
        let q = p + e1.len();
        assert(e.subrange(e1.len() as int, e.len() as int) =~= last);
        assert(b.subrange(q, q + 8 + payload.len()) =~= b.subrange(p, p + e.len()).subrange(
            e1.len() as int,
            e.len() as int,
        ));
        lemma_frames_single(b, q, tb, payload);
        lemma_frames_concat(b, p, q, p + e.len());
        assert(written_frames(cs) =~= written_frames(front) + seq![(be_u32(tb, 0), payload)]);
    }
}

/// What is written reads back: the header holds the file type and the
/// marker, the declared length spans exactly the chunks that follow, those
/// chunks frame back, in order, into each chunk's tag and stored payload,
/// and decoding each stored payload gives the chunk's data.
pub proof fn lemma_encode_reads_back(f: FileView)
    requires
        encode_file(f) is Ok,
    ensures
        ({
            let b = encode_file(f)->Ok_0;
            &&& b.len() >= HEADER_LEN
            &&& be_u32(b, 0) == f.file_type
            &&& be_u32(b, 8) == f.container
            &&& chunks_end(be_u32(b, 4)) == b.len()
            &&& chunk_frames(b, HEADER_LEN as int, b.len() as int) == Some(written_frames(f.chunks))
            &&& forall|i: int|
                0 <= i < f.chunks.len() ==> decoded_payload(
                    #[trigger] written_frames(f.chunks)[i].0,
                    written_frames(f.chunks)[i].1,
                ) == Some(f.chunks[i].1.1)
        }),
{
    let body = encode_chunks(f.chunks)->Some_0;
    let b = encode_file(f)->Ok_0;
    let h0 = be_bytes_u32(f.file_type);
    let h1 = be_bytes_u32((4 + body.len()) as u32);
    let h2 = be_bytes_u32(f.container);
    assert(b == h0 + h1 + h2 + body);
    assert(b[0] == h0[0] && b[1] == h0[1] && b[2] == h0[2] && b[3] == h0[3]);
    assert(b[4] == h1[0] && b[5] == h1[1] && b[6] == h1[2] && b[7] == h1[3]);
    assert(b[8] == h2[0] && b[9] == h2[1] && b[10] == h2[2] && b[11] == h2[3]);
    lemma_be_u32_round_trip(f.file_type);
    lemma_be_u32_round_trip((4 + body.len()) as u32);
    lemma_be_u32_round_trip(f.container);
    assert(be_u32(b, 0) == be_u32(h0, 0));
    assert(be_u32(b, 4) == be_u32(h1, 0));
    assert(be_u32(b, 8) == be_u32(h2, 0));
    assert(b.subrange(HEADER_LEN as int, HEADER_LEN + body.len()) =~= body);
    lemma_encode_chunks_frames(f.chunks, b, HEADER_LEN as int);
    assert forall|i: int| 0 <= i < f.chunks.len() implies decoded_payload(
        #[trigger] written_frames(f.chunks)[i].0,
        written_frames(f.chunks)[i].1,
    ) == Some(f.chunks[i].1.1) by {
        lemma_rle_round_trip(f.chunks[i].1.1);
    }
}

} // verus!
