//! THOR carriers: a fixed header, zlib-compressed payloads and a zlib-compressed
//! file table of add and remove records.
use crate::bytes::{le_u32, u32_le, lemma_u32_le_round_trip, push_all, push_u32_le, read_u32_le};
use crate::codec::{decode_lossy, deflate, inflate, lossy_utf8, zlib_compressed, zlib_decoded};
use crate::error::{reported_as, truncated, Error};
use crate::seqs::{lemma_prepend_assoc, lemma_sub, lemma_views_push, prepend, views};
use vstd::prelude::*;
use vstd::slice::slice_subrange;
use vstd::slice::slice_to_vec;
use vstd::utf8::encode_utf8;

verus! {

broadcast use vstd::utf8::encode_utf8_valid_utf8, vstd::utf8::encode_utf8_decode_utf8;

/// Length of the magic `ASSF (C) 2007 Aeomin DEV`.
pub const MAGIC_LEN: usize = 24;

/// Length of the header that this writer emits (no target GRF name).
pub const HEADER_LEN: usize = 40;

/// Longest filename, in bytes, that a table record can hold.
pub const MAX_NAME_LEN: usize = 255;

pub const FLAG_ADD: u8 = 0;

pub const FLAG_REMOVE: u8 = 1;

/// The magic that every THOR file starts with.
pub open spec fn thor_magic() -> Seq<u8> {
    seq![
        0x41u8, 0x53, 0x53, 0x46, 0x20, 0x28, 0x43, 0x29, 0x20, 0x32, 0x30, 0x30, 0x37, 0x20,
        0x41, 0x65, 0x6F, 0x6D, 0x69, 0x6E, 0x20, 0x44, 0x45, 0x56,
    ]
}

fn magic_bytes() -> (r: Vec<u8>)
    ensures
        r@ == thor_magic(),
{
    let r = vec![
        0x41u8, 0x53, 0x53, 0x46, 0x20, 0x28, 0x43, 0x29, 0x20, 0x32, 0x30, 0x30, 0x37, 0x20,
        0x41, 0x65, 0x6F, 0x6D, 0x69, 0x6E, 0x20, 0x44, 0x45, 0x56,
    ];
    assert(r@ =~= thor_magic());
    r
}

/// One record of a THOR file table.
#[derive(Debug, Clone, PartialEq, Eq)]
pub enum ThorEntry {
    Add { filename: String, data: Vec<u8> },
    Remove { filename: String },
}

/// What a THOR table record holds.
pub enum ThorRecord {
    Add { filename: Seq<char>, data: Seq<u8> },
    Remove { filename: Seq<char> },
}

impl View for ThorEntry {
    type V = ThorRecord;

    open spec fn view(&self) -> ThorRecord {
        match self {
            ThorEntry::Add { filename, data } => ThorRecord::Add {
                filename: filename@,
                data: data@,
            },
            ThorEntry::Remove { filename } => ThorRecord::Remove { filename: filename@ },
        }
    }
}

/// A THOR carrier: its table records in order.
#[derive(Debug)]
pub struct Thor {
    pub entries: Vec<ThorEntry>,
}

impl View for Thor {
    type V = Seq<ThorRecord>;

    open spec fn view(&self) -> Seq<ThorRecord> {
        views(self.entries@)
    }
}

/// The payload of an add record: the zlib stream of `size` bytes at `offset`,
/// decoded; empty where it lies past the end of the file or does not decode.
pub open spec fn payload(data: Seq<u8>, offset: int, size: int) -> Seq<u8> {
    if offset + size <= data.len() {
        match zlib_decoded(data.subrange(offset, offset + size)) {
            Some(d) => d,
            None => seq![],
        }
    } else {
        seq![]
    }
}

/// The records of the decompressed table `t` from `pos` on, with payloads taken
/// from the whole file `data`. The table ends at its end or at a zero-length name;
/// records with an unknown flag are skipped.
pub open spec fn table_from(t: Seq<u8>, pos: int, data: Seq<u8>) -> Result<Seq<ThorRecord>, Error>
    decreases t.len() - pos,
{
    if pos < 0 || pos >= t.len() || t[pos] == 0 {
        Ok(seq![])
    } else {
        let n = t[pos] as int;
        if pos + 2 + n > t.len() {
            Err(Error::UnexpectedEof)
        } else {
            let filename = lossy_utf8(t.subrange(pos + 1, pos + 1 + n));
            let flags = t[pos + 1 + n];
            let q = pos + 2 + n;
            if flags == FLAG_ADD {
                if q + 12 > t.len() {
                    Err(Error::UnexpectedEof)
                } else {
                    let offset = le_u32(t.subrange(q, q + 4)) as int;
                    let size = le_u32(t.subrange(q + 4, q + 8)) as int;
                    prepend(
                        seq![ThorRecord::Add { filename, data: payload(data, offset, size) }],
                        table_from(t, q + 12, data),
                    )
                }
            } else if flags == FLAG_REMOVE {
                prepend(seq![ThorRecord::Remove { filename }], table_from(t, q, data))
            } else {
                table_from(t, q, data)
            }
        }
    }
}

/// Where the compressed table lies, as (offset, length), or the error that the
/// header gives.
pub open spec fn header_table(data: Seq<u8>) -> Result<(int, int), Error> {
    if data.len() < MAGIC_LEN || data.subrange(0, MAGIC_LEN as int) != thor_magic() {
        Err(Error::InvalidThorHeader)
    } else if data.len() < 32 {
        Err(Error::UnexpectedEof)
    } else if !(data[30] == 0 && (data[29] == 0x30 || data[29] == 0x21)) {
        Err(Error::UnsupportedThorMode((data[29] as int + 256 * data[30] as int) as i16))
    } else {
        let k = 32 + data[31] as int;
        if k + 8 > data.len() {
            Err(Error::UnexpectedEof)
        } else {
            let len = le_u32(data.subrange(k, k + 4)) as int;
            let off = le_u32(data.subrange(k + 4, k + 8)) as int;
            if off + len > data.len() {
                Err(Error::UnexpectedEof)
            } else {
                Ok((off, len))
            }
        }
    }
}

/// A record whose filename fits its length byte.
pub open spec fn name_fits(r: ThorRecord) -> bool {
    match r {
        ThorRecord::Add { filename, .. } => encode_utf8(filename).len() <= MAX_NAME_LEN,
        ThorRecord::Remove { filename } => encode_utf8(filename).len() <= MAX_NAME_LEN,
    }
}

pub open spec fn all_names_fit(rs: Seq<ThorRecord>) -> bool {
    forall|i: int| 0 <= i < rs.len() ==> #[trigger] name_fits(rs[i])
}

/// The compressed payload that the writer stores for a record: an add's data
/// zlib-compressed, nothing for a remove.
pub open spec fn add_payload(r: ThorRecord) -> Seq<u8> {
    match r {
        ThorRecord::Add { data, .. } => zlib_compressed(data),
        ThorRecord::Remove { .. } => seq![],
    }
}

/// The payloads of the first `n` records, one after the other.
pub open spec fn payloads(rs: Seq<ThorRecord>, n: int) -> Seq<u8>
    decreases n,
{
    if n <= 0 {
        seq![]
    } else {
        payloads(rs, n - 1) + add_payload(rs[n - 1])
    }
}

/// Where each record's payload is written: for an add, 40 plus the lengths of
/// the payloads before it; 0 for a remove.
pub open spec fn offsets_of(rs: Seq<ThorRecord>) -> Seq<u32> {
    Seq::new(
        rs.len(),
        |j: int|
            if rs[j] is Add {
                (HEADER_LEN + payloads(rs, j).len()) as u32
            } else {
                0u32
            },
    )
}

/// The compressed size written for each record.
pub open spec fn csizes_of(rs: Seq<ThorRecord>) -> Seq<u32> {
    Seq::new(rs.len(), |j: int| add_payload(rs[j]).len() as u32)
}

/// The uncompressed table that the writer stores for `rs`.
pub open spec fn thor_table(rs: Seq<ThorRecord>) -> Seq<u8> {
    table_upto(rs, offsets_of(rs), csizes_of(rs), rs.len() as int)
}

/// The writer succeeds on records whose names fit: every add's data, the
/// payloads after the header and the compressed table fit `u32` sizes.
pub open spec fn thor_fits(rs: Seq<ThorRecord>) -> bool {
    &&& HEADER_LEN + payloads(rs, rs.len() as int).len() <= u32::MAX
    &&& forall|j: int| 0 <= j < rs.len() ==> (#[trigger] rs[j] matches ThorRecord::Add { data, .. } ==> data.len() <= u32::MAX)
    &&& zlib_compressed(thor_table(rs)).len() <= u32::MAX
}

/// The file that the writer produces: magic, no GRF merging, the record count,
/// mode 0x30, no target GRF name, the compressed table's length and offset, the
/// payloads, then the compressed table.
pub open spec fn thor_image(rs: Seq<ThorRecord>) -> Seq<u8> {
    let p = payloads(rs, rs.len() as int);
    let c = zlib_compressed(thor_table(rs));
    thor_magic() + seq![0u8] + u32_le(rs.len() as u32) + seq![0x30u8, 0u8, 0u8] + u32_le(
        c.len() as u32,
    ) + u32_le((HEADER_LEN + p.len()) as u32) + p + c
}

proof fn lemma_payloads_grow(rs: Seq<ThorRecord>, i: int, n: int)
    requires
        0 <= i <= n,
    ensures
        payloads(rs, i).len() <= payloads(rs, n).len(),
    decreases n - i,
{
    if i < n {
        lemma_payloads_grow(rs, i, n - 1);
    }
}

/// The table bytes of record `r`, whose payload (for an add) lies at `off` and
/// takes `cs` bytes.
pub open spec fn record_bytes(r: ThorRecord, off: u32, cs: u32) -> Seq<u8> {
    match r {
        ThorRecord::Add { filename, data } => seq![encode_utf8(filename).len() as u8] + encode_utf8(
            filename,
        ) + seq![FLAG_ADD] + u32_le(off) + u32_le(cs) + u32_le(data.len() as u32),
        ThorRecord::Remove { filename } => seq![encode_utf8(filename).len() as u8] + encode_utf8(
            filename,
        ) + seq![FLAG_REMOVE],
    }
}

/// The table of the first `n` records.
pub open spec fn table_upto(rs: Seq<ThorRecord>, offs: Seq<u32>, css: Seq<u32>, n: int) -> Seq<u8>
    decreases n,
{
    if n <= 0 {
        seq![]
    } else {
        table_upto(rs, offs, css, n - 1) + record_bytes(rs[n - 1], offs[n - 1], css[n - 1])
    }
}

/// A record that reads back as written: its filename is not empty and fits.
pub open spec fn readable(r: ThorRecord) -> bool {
    match r {
        ThorRecord::Add { filename, .. } => 0 < encode_utf8(filename).len() <= MAX_NAME_LEN,
        ThorRecord::Remove { filename } => 0 < encode_utf8(filename).len() <= MAX_NAME_LEN,
    }
}

/// Payloads that the file `data` holds: each add record's zlib stream lies at its
/// offset and decodes to its data.
pub open spec fn payloads_at(rs: Seq<ThorRecord>, offs: Seq<u32>, css: Seq<u32>, data: Seq<u8>) -> bool {
    forall|j: int|
        0 <= j < rs.len() ==> (#[trigger] rs[j] matches ThorRecord::Add { data: d, .. } ==> offs[j] + css[j]
            <= data.len() && zlib_decoded(data.subrange(offs[j] as int, offs[j] + css[j])) == Some(d))
}

proof fn lemma_upto_ext(
    rs: Seq<ThorRecord>,
    offs1: Seq<u32>,
    css1: Seq<u32>,
    offs2: Seq<u32>,
    css2: Seq<u32>,
    n: int,
)
    requires
        n <= offs1.len(),
        n <= offs2.len(),
        n <= css1.len(),
        n <= css2.len(),
        forall|j: int| 0 <= j < n ==> offs1[j] == offs2[j] && css1[j] == css2[j],
    ensures
        table_upto(rs, offs1, css1, n) == table_upto(rs, offs2, css2, n),
    decreases n,
{
    if n > 0 {
        lemma_upto_ext(rs, offs1, css1, offs2, css2, n - 1);
    }
}

proof fn lemma_upto_prefix(rs: Seq<ThorRecord>, offs: Seq<u32>, css: Seq<u32>, i: int, n: int)
    requires
        0 <= i <= n,
    ensures
        table_upto(rs, offs, css, i).is_prefix_of(table_upto(rs, offs, css, n)),
    decreases n - i,
{
    if i < n {
        lemma_upto_prefix(rs, offs, css, i, n - 1);
        let a = table_upto(rs, offs, css, n - 1);
        let b = table_upto(rs, offs, css, n);
        assert(b.subrange(0, a.len() as int) =~= a);
        let c = table_upto(rs, offs, css, i);
        assert(b.subrange(0, c.len() as int) =~= a.subrange(0, c.len() as int));
    }
}

proof fn lemma_table_step(t: Seq<u8>, k: int, x: ThorRecord, off: u32, cs: u32, data: Seq<u8>)
    requires
        readable(x),
        0 <= k,
        k + record_bytes(x, off, cs).len() <= t.len(),
        t.subrange(k, k + record_bytes(x, off, cs).len()) == record_bytes(x, off, cs),
        x matches ThorRecord::Add { data: d, .. } ==> off + cs <= data.len() && zlib_decoded(
            data.subrange(off as int, off + cs),
        ) == Some(d),
    ensures
        table_from(t, k, data) == prepend(seq![x], table_from(t, k + record_bytes(x, off, cs).len(), data)),
{
    let r = record_bytes(x, off, cs);
    assert(t[k] == r[0]);
    match x {
        ThorRecord::Add { filename, data: d } => {
            let nb = encode_utf8(filename);
            let n = nb.len() as int;
            assert(r =~= seq![n as u8] + nb + seq![FLAG_ADD] + u32_le(off) + u32_le(cs) + u32_le(
                d.len() as u32,
            ));
            assert(r.subrange(1, 1 + n) =~= nb);
            lemma_sub(t, k, r, 1, 1 + n);
            assert(t[k + 1 + n] == r[1 + n]);
            lemma_u32_le_round_trip(off);
            lemma_u32_le_round_trip(cs);
            assert(r.subrange(2 + n, 6 + n) =~= u32_le(off));
            lemma_sub(t, k, r, 2 + n, 6 + n);
            assert(r.subrange(6 + n, 10 + n) =~= u32_le(cs));
            lemma_sub(t, k, r, 6 + n, 10 + n);
            assert(payload(data, off as int, cs as int) == d);
        },
        ThorRecord::Remove { filename } => {
            let nb = encode_utf8(filename);
            let n = nb.len() as int;
            assert(r =~= seq![n as u8] + nb + seq![FLAG_REMOVE]);
            assert(r.subrange(1, 1 + n) =~= nb);
            lemma_sub(t, k, r, 1, 1 + n);
            assert(t[k + 1 + n] == r[1 + n]);
        },
    }
}

#[verifier::rlimit(40)]
proof fn lemma_table_reads_back(
    rs: Seq<ThorRecord>,
    offs: Seq<u32>,
    css: Seq<u32>,
    data: Seq<u8>,
    i: int,
)
    requires
        0 <= i <= rs.len(),
        offs.len() == rs.len(),
        css.len() == rs.len(),
        forall|j: int| 0 <= j < rs.len() ==> #[trigger] readable(rs[j]),
        payloads_at(rs, offs, css, data),
    ensures
        table_from(table_upto(rs, offs, css, rs.len() as int), table_upto(rs, offs, css, i).len() as int, data)
            == Ok::<Seq<ThorRecord>, Error>(rs.subrange(i, rs.len() as int)),
    decreases rs.len() - i,
{
    let t = table_upto(rs, offs, css, rs.len() as int);
    let k = table_upto(rs, offs, css, i).len() as int;
    lemma_upto_prefix(rs, offs, css, i, rs.len() as int);
    if i == rs.len() {
        assert(rs.subrange(i, rs.len() as int) =~= Seq::<ThorRecord>::empty());
    } else {
        lemma_table_reads_back(rs, offs, css, data, i + 1);
        lemma_upto_prefix(rs, offs, css, i + 1, rs.len() as int);
        let rec = record_bytes(rs[i], offs[i], css[i]);
        let next = table_upto(rs, offs, css, i + 1);
        assert(next == table_upto(rs, offs, css, i) + rec);
        assert(t.subrange(k, k + rec.len()) =~= rec) by {
            assert(t.subrange(0, next.len() as int) == next);
            assert forall|m: int| 0 <= m < rec.len() implies t.subrange(k, k + rec.len())[m] == rec[m] by {
                assert(t[k + m] == t.subrange(0, next.len() as int)[k + m]);
                assert(next[k + m] == rec[m]);
            }
        }
        assert(readable(rs[i]));
        assert(rs[i] matches ThorRecord::Add { data: d, .. } ==> offs[i] + css[i] <= data.len() && zlib_decoded(
            data.subrange(offs[i] as int, offs[i] + css[i]),
        ) == Some(d));
        lemma_table_step(t, k, rs[i], offs[i], css[i], data);
        assert(seq![rs[i]] + rs.subrange(i + 1, rs.len() as int) =~= rs.subrange(i, rs.len() as int));
    }
}

/// The result that a reader gives for what `table_from` says of a table.
pub open spec fn read_as(r: Result<Thor, Error>, spec: Result<Seq<ThorRecord>, Error>) -> bool {
    match spec {
        Ok(rs) => r matches Ok(g) && g@ == rs,
        Err(e) => r matches Err(x) && reported_as(x, e),
    }
}

/// What reading the THOR file `data` gives: the header's error, a decompression
/// error, or what its table says.
pub open spec fn thor_read(r: Result<Thor, Error>, data: Seq<u8>) -> bool {
    match header_table(data) {
        Err(e) => r matches Err(x) && reported_as(x, e),
        Ok((off, len)) => match zlib_decoded(data.subrange(off, off + len)) {
            None => r matches Err(Error::Decompression(_)),
            Some(t) => read_as(r, table_from(t, 0, data)),
        },
    }
}

fn read_payload(data: &[u8], offset: u32, size: u32) -> (r: Vec<u8>)
    ensures
        r@ == payload(data@, offset as int, size as int),
{
    let off = offset as usize;
    let len = size as usize;
    if off <= data.len() && len <= data.len() - off {
        match inflate(slice_subrange(data, off, off + len)) {
            Some(d) => d,
            None => Vec::new(),
        }
    } else {
        Vec::new()
    }
}

impl Thor {
    /// An empty carrier.
    pub fn new() -> (r: Thor)
        ensures
            r@ == Seq::<ThorRecord>::empty(),
    {
        let r = Thor { entries: Vec::new() };
        assert(r@ =~= Seq::<ThorRecord>::empty());
        r
    }

    /// The records in order.
    pub fn get_entries(&self) -> (r: &[ThorEntry])
        ensures
            r@ == self.entries@,
    {
        self.entries.as_slice()
    }

    /// Appends an add record.
    pub fn add_file(&mut self, filename: &str, data: &[u8])
        ensures
            final(self)@ == old(self)@.push(ThorRecord::Add { filename: filename@, data: data@ }),
    {
        let e = ThorEntry::Add { filename: filename.to_owned(), data: slice_to_vec(data) };
        proof {
            lemma_views_push(self.entries@, e);
        }
        self.entries.push(e);
    }

    /// Appends a remove record.
    pub fn remove_file(&mut self, filename: &str)
        ensures
            final(self)@ == old(self)@.push(ThorRecord::Remove { filename: filename@ }),
    {
        let e = ThorEntry::Remove { filename: filename.to_owned() };
        proof {
            lemma_views_push(self.entries@, e);
        }
        self.entries.push(e);
    }

    /// Reads the records of a decompressed table, taking payloads from `data`.
    pub fn parse_table(t: &[u8], data: &[u8]) -> (r: Result<Thor, Error>)
        ensures
            read_as(r, table_from(t@, 0, data@)),
    {
        let mut entries: Vec<ThorEntry> = Vec::new();
        let mut pos: usize = 0;
        assert(prepend(Seq::<ThorRecord>::empty(), table_from(t@, 0, data@)) == table_from(
            t@,
            0,
            data@,
        )) by {
            if let Ok(x) = table_from(t@, 0, data@) {
                assert(Seq::<ThorRecord>::empty() + x =~= x);
            }
        }
        assert(views(entries@) =~= Seq::<ThorRecord>::empty());
        while pos < t.len()
            invariant
                pos <= t@.len(),
                table_from(t@, 0, data@) == prepend(
                    views(entries@),
                    table_from(t@, pos as int, data@),
                ),
            decreases t@.len() - pos,
        {
            let n = t[pos] as usize;
            if n == 0 {
                assert(views(entries@) + Seq::<ThorRecord>::empty() =~= views(
                    entries@,
                ));
                return Ok(Thor { entries });
            }
            if t.len() - pos < n + 2 {
                return Err(truncated());
            }
            let filename = decode_lossy(slice_subrange(t, pos + 1, pos + 1 + n));
            let flags = t[pos + 1 + n];
            let q = pos + 2 + n;
            let old_pos = pos;
            if flags == FLAG_ADD {
                if t.len() - q < 12 {
                    return Err(truncated());
                }
                let offset = read_u32_le(t, q);
                let size = read_u32_le(t, q + 4);
                let e = ThorEntry::Add { filename, data: read_payload(data, offset, size) };
                pos = q + 12;
                proof {
                    lemma_prepend_assoc(
                        views(entries@),
                        seq![e@],
                        table_from(t@, pos as int, data@),
                    );
                    lemma_views_push(entries@, e);
                }
                entries.push(e);
            } else if flags == FLAG_REMOVE {
                let e = ThorEntry::Remove { filename };
                pos = q;
                proof {
                    lemma_prepend_assoc(
                        views(entries@),
                        seq![e@],
                        table_from(t@, pos as int, data@),
                    );
                    lemma_views_push(entries@, e);
                }
                entries.push(e);
            } else {
                pos = q;
            }
        }
        assert(views(entries@) + Seq::<ThorRecord>::empty() =~= views(entries@));
        Ok(Thor { entries })
    }

    /// Reads a THOR file. Add records whose payload lies past the end of the file
    /// or does not decode are kept with empty data.
    pub fn from_bytes(data: &[u8]) -> (r: Result<Thor, Error>)
        ensures
            thor_read(r, data@),
    {
        if data.len() < MAGIC_LEN {
            return Err(Error::InvalidThorHeader);
        }
        let magic = magic_bytes();
        let mut i: usize = 0;
        while i < MAGIC_LEN
            invariant
                i <= MAGIC_LEN <= data@.len(),
                magic@ == thor_magic(),
                forall|j: int| 0 <= j < i ==> data@[j] == thor_magic()[j],
            decreases MAGIC_LEN - i,
        {
            if data[i] != magic[i] {
                assert(data@.subrange(0, MAGIC_LEN as int)[i as int] != thor_magic()[i as int]);
                return Err(Error::InvalidThorHeader);
            }
            i = i + 1;
        }
        assert(data@.subrange(0, MAGIC_LEN as int) =~= thor_magic());
        if data.len() < 32 {
            return Err(truncated());
        }
        if !(data[30] == 0 && (data[29] == 0x30 || data[29] == 0x21)) {
            let mode = (data[29] as u16 + 256 * data[30] as u16) as i16;
            return Err(Error::UnsupportedThorMode(mode));
        }
        let k = 32 + data[31] as usize;
        if data.len() < k + 8 {
            return Err(truncated());
        }
        let len = read_u32_le(data, k) as usize;
        let off = read_u32_le(data, k + 4) as usize;
        if off > data.len() || len > data.len() - off {
            return Err(truncated());
        }
        match inflate(slice_subrange(data, off, off + len)) {
            None => Err(Error::Decompression("invalid zlib stream in file table".to_owned())),
            Some(t) => Thor::parse_table(t.as_slice(), data),
        }
    }

    /// Writes a THOR file: the header, each add record's data zlib-compressed one
    /// after the other, then the zlib-compressed table. Fails on a filename over
    /// 255 bytes, else where an offset or size would not fit in `u32`. Reading the
    /// result gives back these records where no filename is empty.
    pub fn to_bytes(&self) -> (r: Result<Vec<u8>, Error>)
        ensures
            !all_names_fit(self@) ==> (r matches Err(Error::Custom(m)) && m@
                == "Filename too long (max 255 bytes)"@),
            all_names_fit(self@) ==> (r is Ok <==> thor_fits(self@)),
            all_names_fit(self@) && r is Err ==> (r matches Err(Error::Custom(m)) && m@
                == "THOR archive too large"@),
            r matches Ok(b) ==> b@ == thor_image(self@),
            r matches Ok(b) ==> (header_table(b@) matches Ok((off, len)) && zlib_decoded(
                b@.subrange(off, off + len),
            ) matches Some(t) && ((forall|j: int| 0 <= j < self@.len() ==> #[trigger] readable(self@[j]))
                ==> table_from(t, 0, b@) == Ok::<Seq<ThorRecord>, Error>(self@))),
    {
        let mut k: usize = 0;
        while k < self.entries.len()
            invariant
                k <= self.entries@.len(),
                forall|j: int| 0 <= j < k ==> #[trigger] name_fits(self@[j]),
            decreases self.entries@.len() - k,
        {
            let nb = match &self.entries[k] {
                ThorEntry::Add { filename, .. } => filename.as_str().as_bytes(),
                ThorEntry::Remove { filename } => filename.as_str().as_bytes(),
            };
            assert(self@[k as int] == self.entries@[k as int]@);
            if nb.len() > MAX_NAME_LEN {
                assert(!name_fits(self@[k as int]));
                proof {
                    reveal_strlit("Filename too long (max 255 bytes)");
                }
                return Err(Error::Custom("Filename too long (max 255 bytes)".to_owned()));
            }
            k = k + 1;
        }
        let mut file_data: Vec<u8> = Vec::new();
        let mut table: Vec<u8> = Vec::new();
        let ghost mut offs: Seq<u32> = seq![];
        let ghost mut css: Seq<u32> = seq![];
        let mut i: usize = 0;
        while i < self.entries.len()
            invariant
                i <= self.entries@.len(),
                all_names_fit(self@),
                offs.len() == i,
                css.len() == i,
                table@ == table_upto(self@, offs, css, i as int),
                file_data@ == payloads(self@, i as int),
                HEADER_LEN + file_data@.len() <= u32::MAX,
                forall|j: int| 0 <= j < i ==> offs[j] == #[trigger] offsets_of(self@)[j] && css[j] == csizes_of(self@)[j],
                forall|j: int| 0 <= j < i ==> (#[trigger] self@[j] matches ThorRecord::Add { data, .. } ==> data.len() <= u32::MAX),
                forall|j: int|
                    0 <= j < i ==> (#[trigger] self@[j] matches ThorRecord::Add { data: d, .. } ==> HEADER_LEN
                        <= offs[j] && offs[j] + css[j] <= HEADER_LEN + file_data@.len() && zlib_decoded(
                        file_data@.subrange(offs[j] - HEADER_LEN, offs[j] + css[j] - HEADER_LEN),
                    ) == Some(d)),
            decreases self.entries@.len() - i,
        {
            let e = &self.entries[i];
            assert(self@[i as int] == e@);
            assert(name_fits(self@[i as int]));
            let ghost old_fd = file_data@;
            let ghost old_offs = offs;
            let ghost old_css = css;
            match e {
                ThorEntry::Add { filename, data } => {
                    let nb = filename.as_str().as_bytes();
                    let compressed = deflate(data.as_slice());
                    if data.len() > u32::MAX as usize
                        || compressed.len() > (u32::MAX as usize) - HEADER_LEN - file_data.len() {
                        proof {
                            lemma_payloads_grow(self@, i + 1, self@.len() as int);
                            assert(payloads(self@, i + 1) == old_fd + compressed@);
                            reveal_strlit("THOR archive too large");
                        }
                        return Err(Error::Custom("THOR archive too large".to_owned()));
                    }
                    let offset = (HEADER_LEN + file_data.len()) as u32;
                    push_all(&mut file_data, compressed.as_slice());
                    table.push(nb.len() as u8);
                    push_all(&mut table, nb);
                    table.push(FLAG_ADD);
                    push_u32_le(&mut table, offset);
                    push_u32_le(&mut table, compressed.len() as u32);
                    push_u32_le(&mut table, data.len() as u32);
                    proof {
                        offs = offs.push(offset);
                        css = css.push(compressed.len() as u32);
                        assert(file_data@.subrange(offset - HEADER_LEN, offset + compressed.len() - HEADER_LEN) =~= compressed@);
                    }
                },
                ThorEntry::Remove { filename } => {
                    let nb = filename.as_str().as_bytes();
                    table.push(nb.len() as u8);
                    push_all(&mut table, nb);
                    table.push(FLAG_REMOVE);
                    proof {
                        offs = offs.push(0u32);
                        css = css.push(0u32);
                    }
                },
            }
            proof {
                assert(file_data@ =~= payloads(self@, i + 1));
                lemma_upto_ext(self@, old_offs, old_css, offs, css, i as int);
                assert(table@ =~= table_upto(self@, old_offs, old_css, i as int) + record_bytes(
                    e@,
                    offs[i as int],
                    css[i as int],
                ));
                assert forall|j: int|
                    0 <= j < i + 1 implies (#[trigger] self@[j] matches ThorRecord::Add { data: d, .. } ==> HEADER_LEN
                        <= offs[j] && offs[j] + css[j] <= HEADER_LEN + file_data@.len() && zlib_decoded(
                        file_data@.subrange(offs[j] - HEADER_LEN, offs[j] + css[j] - HEADER_LEN),
                    ) == Some(d)) by {
                    if j < i {
                        assert(offs[j] == old_offs[j] && css[j] == old_css[j]);
                        if self@[j] is Add {
                            assert(file_data@.subrange(offs[j] - HEADER_LEN, offs[j] + css[j] - HEADER_LEN)
                                =~= old_fd.subrange(offs[j] - HEADER_LEN, offs[j] + css[j] - HEADER_LEN));
                        }
                    }
                }
            }
            i = i + 1;
        }
        proof {
            lemma_upto_ext(self@, offs, css, offsets_of(self@), csizes_of(self@), i as int);
        }
        let ctable = deflate(table.as_slice());
        if ctable.len() > u32::MAX as usize {
            proof {
                reveal_strlit("THOR archive too large");
            }
            return Err(Error::Custom("THOR archive too large".to_owned()));
        }
        let mut out = magic_bytes();
        out.push(0u8);
        push_u32_le(&mut out, #[verifier::truncate] (self.entries.len() as u32));
        out.push(0x30u8);
        out.push(0u8);
        out.push(0u8);
        push_u32_le(&mut out, ctable.len() as u32);
        push_u32_le(&mut out, (HEADER_LEN + file_data.len()) as u32);
        let ghost head = out@;
        push_all(&mut out, file_data.as_slice());
        push_all(&mut out, ctable.as_slice());
        proof {
            let b = out@;
            let fdl = file_data@.len() as int;
            assert(head.len() == HEADER_LEN);
            assert(b.subrange(0, MAGIC_LEN as int) =~= thor_magic());
            lemma_u32_le_round_trip(ctable.len() as u32);
            lemma_u32_le_round_trip((HEADER_LEN + file_data.len()) as u32);
            assert(b.subrange(32, 36) =~= u32_le(ctable.len() as u32));
            assert(b.subrange(36, 40) =~= u32_le((HEADER_LEN + file_data.len()) as u32));
            assert(b[29] == 0x30 && b[30] == 0 && b[31] == 0);
            assert(b.subrange(40 + fdl, b.len() as int) =~= ctable@);
            assert(header_table(b) == Ok::<(int, int), Error>((40 + fdl, ctable@.len() as int)));
            assert(self@.len() == i);
            assert(payloads_at(self@, offs, css, b)) by {
                assert forall|j: int| 0 <= j < self@.len() implies (#[trigger] self@[j] matches ThorRecord::Add { data: d, .. } ==> offs[j] + css[j]
                    <= b.len() && zlib_decoded(b.subrange(offs[j] as int, offs[j] + css[j])) == Some(d)) by {
                    if self@[j] is Add {
                        assert(b.subrange(offs[j] as int, offs[j] + css[j]) =~= file_data@.subrange(
                            offs[j] - HEADER_LEN,
                            offs[j] + css[j] - HEADER_LEN,
                        ));
                    }
                }
            }
            assert(b =~= thor_image(self@));
            if forall|j: int| 0 <= j < self@.len() ==> #[trigger] readable(self@[j]) {
                lemma_table_reads_back(self@, offs, css, b, 0);
                assert(self@.subrange(0, self@.len() as int) =~= self@);
            }
        }
        Ok(out)
    }
}

} // verus!