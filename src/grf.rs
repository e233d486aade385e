//! The GRF container that patches are merged into: a 46-byte header, an
//! append-only data segment of zlib-compressed files, and a zlib-compressed file
//! table at its end. The whole archive is held as bytes; the caller reads and
//! writes the file.
use crate::bytes::{le_u32, u32_le, lemma_u32_le_round_trip, push_all, push_u32_le, read_u32_le};
use crate::codec::{deflate, inflate, zlib_compressed, zlib_decoded};
use crate::error::Error;
use crate::seqs::lemma_sub;
use vstd::prelude::*;
use vstd::slice::slice_subrange;
use vstd::slice::slice_to_vec;

verus! {

/// Length of the header.
pub const HEADER_LEN: usize = 46;

/// The only supported version.
pub const VERSION: u32 = 0x200;

/// Flag of an entry that holds a file.
pub const FLAG_FILE: u8 = 1;

/// Length of the fixed part of a table entry after its name and NUL.
pub const ENTRY_FIXED_LEN: usize = 17;

/// The magic `Master of Magic` with its NUL.
pub open spec fn grf_magic() -> Seq<u8> {
    seq![
        0x4Du8, 0x61, 0x73, 0x74, 0x65, 0x72, 0x20, 0x6F, 0x66, 0x20, 0x4D, 0x61, 0x67, 0x69,
        0x63, 0x00,
    ]
}

fn magic_bytes() -> (r: Vec<u8>)
    ensures
        r@ == grf_magic(),
{
    let r = vec![
        0x4Du8, 0x61, 0x73, 0x74, 0x65, 0x72, 0x20, 0x6F, 0x66, 0x20, 0x4D, 0x61, 0x67, 0x69,
        0x63, 0x00,
    ];
    assert(r@ =~= grf_magic());
    r
}

/// An entry of the file table. `offset` counts from the end of the header.
#[derive(Debug, Clone)]
pub struct GrfEntry {
    pub filename: Vec<u8>,
    pub offset: u32,
    pub compressed_size: u32,
    pub aligned_size: u32,
    pub uncompressed_size: u32,
    pub flags: u8,
}

/// What a table entry holds.
pub struct GrfRecord {
    pub filename: Seq<u8>,
    pub offset: u32,
    pub compressed_size: u32,
    pub aligned_size: u32,
    pub uncompressed_size: u32,
    pub flags: u8,
}

impl View for GrfEntry {
    type V = GrfRecord;

    open spec fn view(&self) -> GrfRecord {
        GrfRecord {
            filename: self.filename@,
            offset: self.offset,
            compressed_size: self.compressed_size,
            aligned_size: self.aligned_size,
            uncompressed_size: self.uncompressed_size,
            flags: self.flags,
        }
    }
}

impl GrfEntry {
    fn copy(&self) -> (r: GrfEntry)
        ensures
            r@ == self@,
    {
        GrfEntry {
            filename: slice_to_vec(self.filename.as_slice()),
            offset: self.offset,
            compressed_size: self.compressed_size,
            aligned_size: self.aligned_size,
            uncompressed_size: self.uncompressed_size,
            flags: self.flags,
        }
    }
}

pub open spec fn records_view(v: Seq<GrfEntry>) -> Seq<GrfRecord> {
    v.map_values(|e: GrfEntry| e@)
}

/// The entry named `name`, if any.
pub open spec fn lookup(rs: Seq<GrfRecord>, name: Seq<u8>) -> Option<GrfRecord> {
    if exists|i: int| 0 <= i < rs.len() && #[trigger] rs[i].filename == name {
        Some(rs[choose|i: int| 0 <= i < rs.len() && #[trigger] rs[i].filename == name])
    } else {
        None
    }
}

/// A name that the table can hold: no NUL byte.
pub open spec fn valid_name(name: Seq<u8>) -> bool {
    forall|k: int| 0 <= k < name.len() ==> name[k] != 0
}

/// `patch_file` succeeds: the name has no NUL, and the data and the grown data
/// segment fit `u32` sizes.
pub open spec fn patch_fits(body_len: int, name: Seq<u8>, data: Seq<u8>) -> bool {
    valid_name(name) && data.len() <= u32::MAX && body_len + zlib_compressed(data).len() <= u32::MAX
}

/// `to_bytes` succeeds: the table, its compressed form and the stored file count
/// fit `u32`.
pub open spec fn image_fits(rs: Seq<GrfRecord>) -> bool {
    table_bytes(rs).len() <= u32::MAX && rs.len() + 7 <= u32::MAX && zlib_compressed(
        table_bytes(rs),
    ).len() <= u32::MAX
}

/// The bytes that saving an archive with table `rs` and data segment `body`
/// writes: magic, a zero key, the body length, a zero seed, the entry count plus
/// 7, the version, the body, the compressed and uncompressed table lengths, and
/// the compressed table.
pub open spec fn grf_image(rs: Seq<GrfRecord>, body: Seq<u8>) -> Seq<u8> {
    let t = table_bytes(rs);
    let c = zlib_compressed(t);
    grf_magic() + Seq::new(14, |i: int| 0u8) + u32_le(body.len() as u32) + u32_le(0u32) + u32_le(
        (rs.len() + 7) as u32,
    ) + u32_le(VERSION) + body + u32_le(c.len() as u32) + u32_le(t.len() as u32) + c
}

/// The bytes of `body` that an entry's data occupies.
pub open spec fn segment(body: Seq<u8>, r: GrfRecord) -> Seq<u8> {
    body.subrange(r.offset as int, r.offset + r.compressed_size)
}

/// Table entries with distinct, valid names whose data lies within a body of
/// `body_len` bytes.
pub open spec fn records_wf(rs: Seq<GrfRecord>, body_len: int) -> bool {
    &&& forall|i: int, j: int|
        0 <= i < j < rs.len() ==> #[trigger] rs[i].filename != #[trigger] rs[j].filename
    &&& forall|i: int| 0 <= i < rs.len() ==> valid_name(#[trigger] rs[i].filename)
    &&& forall|i: int| 0 <= i < rs.len() ==> #[trigger] rs[i].offset + rs[i].compressed_size <= body_len
}

proof fn lemma_lookup_at(rs: Seq<GrfRecord>, i: int, body_len: int)
    requires
        records_wf(rs, body_len),
        0 <= i < rs.len(),
    ensures
        lookup(rs, rs[i].filename) == Some(rs[i]),
{
    let n = rs[i].filename;
    assert(rs[i].filename == n);
    let j = choose|j: int| 0 <= j < rs.len() && #[trigger] rs[j].filename == n;
    if j != i {
        if j < i {
            assert(rs[j].filename != rs[i].filename);
        } else {
            assert(rs[i].filename != rs[j].filename);
        }
    }
}

/// A GRF archive held in memory: its version, file table and data segment.
pub struct Grf {
    version: u32,
    entries: Vec<GrfEntry>,
    body: Vec<u8>,
    dirty: bool,
}

impl Grf {
    /// The file table, in stored order.
    pub closed spec fn records(&self) -> Seq<GrfRecord> {
        records_view(self.entries@)
    }

    /// The data segment between the header and the table.
    pub closed spec fn body(&self) -> Seq<u8> {
        self.body@
    }

    /// The version from the header.
    pub closed spec fn version_spec(&self) -> u32 {
        self.version
    }

    /// Changed since it was opened, created or last saved.
    pub closed spec fn is_dirty(&self) -> bool {
        self.dirty
    }

    /// What `name` holds: the decoded data of its entry.
    pub open spec fn content(&self, name: Seq<u8>) -> Option<Seq<u8>> {
        match lookup(self.records(), name) {
            Some(r) => zlib_decoded(segment(self.body(), r)),
            None => None,
        }
    }

    pub open spec fn wf(&self) -> bool {
        &&& records_wf(self.records(), self.body().len() as int)
        &&& self.body().len() <= u32::MAX
        &&& self.version_spec() == VERSION
    }

    /// An empty archive of the supported version.
    pub fn create_new() -> (r: Grf)
        ensures
            r.wf(),
            r.records() == Seq::<GrfRecord>::empty(),
            r.body() == Seq::<u8>::empty(),
            r.version_spec() == VERSION,
            !r.is_dirty(),
    {
        let r = Grf { version: VERSION, entries: Vec::new(), body: Vec::new(), dirty: false };
        assert(r.records() =~= Seq::<GrfRecord>::empty());
        r
    }

    /// The version from the header.
    pub fn version(&self) -> (r: u32)
        ensures
            r == self.version_spec(),
    {
        self.version
    }

    /// Whether it changed since it was opened, created or last saved.
    pub fn dirty(&self) -> (r: bool)
        ensures
            r == self.is_dirty(),
    {
        self.dirty
    }

    /// How many entries the table holds.
    pub fn file_count(&self) -> (r: usize)
        ensures
            r == self.records().len(),
    {
        self.entries.len()
    }

    /// Reads the file `name`: its entry's data, decompressed.
    pub fn read_file(&self, name: &[u8]) -> (r: Result<Vec<u8>, Error>)
        requires
            self.wf(),
        ensures
            lookup(self.records(), name@) is None ==> r matches Err(Error::PatchFailed(_)),
            lookup(self.records(), name@) is Some ==> match self.content(name@) {
                Some(d) => r matches Ok(v) && v@ == d,
                None => r matches Err(Error::Decompression(_)),
            },
    {
        match self.find_in(name) {
            None => Err(Error::PatchFailed("file not found in GRF".to_owned())),
            Some(i) => {
                proof {
                    lemma_lookup_at(self.records(), i as int, self.body().len() as int);
                }
                let e = &self.entries[i];
                let start = e.offset as usize;
                let end = start + e.compressed_size as usize;
                match inflate(slice_subrange(self.body.as_slice(), start, end)) {
                    Some(d) => Ok(d),
                    None => Err(Error::Decompression("invalid zlib stream in GRF".to_owned())),
                }
            },
        }
    }

    /// Adds `name` holding `data`, or replaces its entry. The compressed data is
    /// appended to the data segment. Fails, changing nothing, where `name` holds a
    /// NUL byte or the archive would outgrow `u32` offsets.
    pub fn patch_file(&mut self, name: &[u8], data: &[u8]) -> (r: Result<(), Error>)
        requires
            old(self).wf(),
        ensures
            final(self).wf(),
            r is Ok <==> patch_fits(old(self).body().len() as int, name@, data@),
            r is Ok ==> final(self).body() == old(self).body() + zlib_compressed(data@),
            r is Err ==> *final(self) == *old(self),
            r matches Err(e) ==> e is Custom,
            r is Ok ==> final(self).content(name@) == Some(data@),
            r is Ok ==> final(self).is_dirty(),
            r is Ok ==> forall|n: Seq<u8>|
                n != name@ ==> #[trigger] lookup(final(self).records(), n) == lookup(old(self).records(), n),
            r is Ok ==> old(self).body().is_prefix_of(final(self).body()),
            r is Ok ==> forall|n: Seq<u8>|
                n != name@ ==> #[trigger] final(self).content(n) == old(self).content(n),
            r is Ok ==> final(self).version_spec() == old(self).version_spec(),
    {
        let mut k: usize = 0;
        while k < name.len()
            invariant
                k <= name@.len(),
                forall|m: int| 0 <= m < k ==> name@[m] != 0,
                *self == *old(self),
                self.wf(),
            decreases name@.len() - k,
        {
            if name[k] == 0 {
                return Err(Error::Custom("file name holds a NUL byte".to_owned()));
            }
            k = k + 1;
        }
        let compressed = deflate(data);
        if data.len() > u32::MAX as usize || compressed.len() > u32::MAX as usize
            || self.body.len() > u32::MAX as usize - compressed.len() {
            return Err(Error::Custom("GRF too large".to_owned()));
        }
        let ghost old_body = self.body@;
        let ghost old_recs = self.records();
        let entry = GrfEntry {
            filename: slice_to_vec(name),
            offset: self.body.len() as u32,
            compressed_size: compressed.len() as u32,
            aligned_size: compressed.len() as u32,
            uncompressed_size: data.len() as u32,
            flags: FLAG_FILE,
        };
        push_all(&mut self.body, compressed.as_slice());
        assert(segment(self.body@, entry@) =~= compressed@);
        let found = self.find_in(name);
        match found {
            Some(i) => {
                self.entries.set(i, entry);
                assert(self.records() =~= old_recs.update(i as int, entry@));
            },
            None => {
                self.entries.push(entry);
                assert(self.records() =~= old_recs.push(entry@));
            },
        }
        self.dirty = true;
        proof {
            let rs = self.records();
            let bl = self.body@.len() as int;
            assert(old_body.is_prefix_of(self.body@)) by {
                assert(self.body@.subrange(0, old_body.len() as int) =~= old_body);
            }
            assert forall|i: int| 0 <= i < rs.len() && rs[i].filename != name@ implies #[trigger] segment(self.body@, rs[i]) == segment(old_body, rs[i]) by {
                assert(segment(self.body@, rs[i]) =~= segment(old_body, rs[i]));
            }
            assert(records_wf(rs, bl));
            let j = match found { Some(i) => i as int, None => old_recs.len() as int };
            assert(rs[j] == entry@);
            lemma_lookup_at(rs, j, bl);
            assert forall|n: Seq<u8>| n != name@ implies #[trigger] lookup(rs, n) == lookup(old_recs, n) by {
                if exists|i: int| 0 <= i < old_recs.len() && #[trigger] old_recs[i].filename == n {
                    let i = choose|i: int| 0 <= i < old_recs.len() && #[trigger] old_recs[i].filename == n;
                    lemma_lookup_at(old_recs, i, old_body.len() as int);
                    assert(rs[i] == old_recs[i]);
                    lemma_lookup_at(rs, i, bl);
                } else {
                    assert forall|i: int| 0 <= i < rs.len() implies #[trigger] rs[i].filename != n by {
                        if i != j {
                            assert(rs[i] == old_recs[i]);
                        }
                    }
                }
            }
            assert forall|n: Seq<u8>| n != name@ implies #[trigger] self.content(n) == old(self).content(n) by {
                assert(lookup(rs, n) == lookup(old_recs, n));
                if let Some(r) = lookup(old_recs, n) {
                    let i = choose|i: int| 0 <= i < old_recs.len() && #[trigger] old_recs[i].filename == n;
                    assert(r == old_recs[i]);
                    assert(segment(self.body@, r) =~= segment(old_body, r));
                }
            }
        }
        Ok(())
    }

    /// `find` for a name that is known to be valid, with the facts that
    /// `patch_file` needs.
    fn find_in(&self, name: &[u8]) -> (r: Option<usize>)
        requires
            records_wf(self.records(), self.body().len() as int),
        ensures
            match r {
                Some(i) => i < self.records().len() && self.records()[i as int].filename == name@,
                None => forall|i: int| 0 <= i < self.records().len() ==> #[trigger] self.records()[i].filename != name@,
            },
    {
        let mut i: usize = 0;
        while i < self.entries.len()
            invariant
                i <= self.entries@.len(),
                forall|j: int| 0 <= j < i ==> #[trigger] self.records()[j].filename != name@,
            decreases self.entries@.len() - i,
        {
            let fname = self.entries[i].filename.as_slice();
            assert(self.records()[i as int].filename == fname@);
            if fname.len() == name.len() {
                let mut k: usize = 0;
                while k < name.len() && fname[k] == name[k]
                    invariant
                        k <= name@.len(),
                        fname@.len() == name@.len(),
                        forall|m: int| 0 <= m < k ==> fname@[m] == name@[m],
                    decreases name@.len() - k,
                {
                    k = k + 1;
                }
                if k == name.len() {
                    assert(fname@ =~= name@);
                    return Some(i);
                }
            }
            i = i + 1;
        }
        None
    }

    /// The archive's bytes: header, data segment, then the compressed table.
    /// Fails where the table would outgrow `u32` sizes.
    pub fn to_bytes(&self) -> (r: Result<Vec<u8>, Error>)
        requires
            self.wf(),
        ensures
            r is Ok <==> image_fits(self.records()),
            r matches Ok(img) ==> img@ == grf_image(self.records(), self.body()),
            r matches Ok(img) ==> saved_image(self.records(), self.body(), img@),
            r matches Err(e) ==> e is Custom,
    {
        let mut table: Vec<u8> = Vec::new();
        let mut i: usize = 0;
        while i < self.entries.len()
            invariant
                i <= self.entries@.len(),
                table@ == table_bytes(self.records().subrange(0, i as int)),
            decreases self.entries@.len() - i,
        {
            let e = &self.entries[i];
            let ghost before = table@;
            push_all(&mut table, e.filename.as_slice());
            table.push(0u8);
            push_u32_le(&mut table, e.compressed_size);
            push_u32_le(&mut table, e.aligned_size);
            push_u32_le(&mut table, e.uncompressed_size);
            table.push(e.flags);
            push_u32_le(&mut table, e.offset);
            proof {
                let rs = self.records();
                assert(rs[i as int] == e@);
                assert(table@ =~= before + entry_bytes(e@));
                assert(rs.subrange(0, i + 1) =~= rs.subrange(0, i as int).push(e@));
                lemma_table_push(rs.subrange(0, i as int), e@);
            }
            i = i + 1;
        }
        assert(self.records().subrange(0, i as int) =~= self.records());
        if table.len() > u32::MAX as usize || self.entries.len() > (u32::MAX - 7) as usize {
            return Err(Error::Custom("GRF table too large".to_owned()));
        }
        let ctable = deflate(table.as_slice());
        if ctable.len() > u32::MAX as usize {
            return Err(Error::Custom("GRF table too large".to_owned()));
        }
        let mut out = magic_bytes();
        let mut k: usize = 0;
        while k < 14
            invariant
                k <= 14,
                out@ == grf_magic() + Seq::new(k as nat, |i: int| 0u8),
            decreases 14 - k,
        {
            out.push(0u8);
            k = k + 1;
            assert(out@ =~= grf_magic() + Seq::new(k as nat, |i: int| 0u8));
        }
        push_u32_le(&mut out, self.body.len() as u32);
        push_u32_le(&mut out, 0u32);
        push_u32_le(&mut out, (self.entries.len() + 7) as u32);
        push_u32_le(&mut out, self.version);
        push_all(&mut out, self.body.as_slice());
        push_u32_le(&mut out, ctable.len() as u32);
        push_u32_le(&mut out, table.len() as u32);
        push_all(&mut out, ctable.as_slice());
        proof {
            lemma_u32_le_round_trip(self.body.len() as u32);
            assert(out@ =~= grf_image(self.records(), self.body()));
            lemma_image_saved(self.records(), self.body());
        }
        Ok(out)
    }

    /// Opens an archive from its bytes: checks the magic and version, reads the
    /// table, and checks each entry.
    pub fn from_bytes(data: &[u8]) -> (r: Result<Grf, Error>)
        ensures
            opened_as(r, data@),
            r matches Ok(g) ==> g.wf() && !g.is_dirty(),
    {
        if data.len() < HEADER_LEN {
            return Err(Error::InvalidGrfFormat);
        }
        let magic = magic_bytes();
        let mut i: usize = 0;
        while i < 16
            invariant
                i <= 16 <= data@.len(),
                magic@ == grf_magic(),
                forall|j: int| 0 <= j < i ==> data@[j] == grf_magic()[j],
            decreases 16 - i,
        {
            if data[i] != magic[i] {
                assert(data@.subrange(0, 16)[i as int] != grf_magic()[i as int]);
                return Err(Error::InvalidGrfFormat);
            }
            i = i + 1;
        }
        assert(data@.subrange(0, 16) =~= grf_magic());
        if read_u32_le(data, 42) != VERSION {
            return Err(Error::InvalidGrfFormat);
        }
        let bl = read_u32_le(data, 30) as usize;
        if data.len() - HEADER_LEN < bl || data.len() - HEADER_LEN - bl < 8 {
            return Err(Error::UnexpectedEof);
        }
        let clen = read_u32_le(data, HEADER_LEN + bl) as usize;
        let tstart = HEADER_LEN + bl + 8;
        if data.len() - tstart < clen {
            return Err(Error::UnexpectedEof);
        }
        let table = match inflate(slice_subrange(data, tstart, tstart + clen)) {
            Some(t) => t,
            None => {
                return Err(Error::Decompression("invalid zlib stream in GRF table".to_owned()));
            },
        };
        let t = table.as_slice();
        let mut g = Grf {
            version: VERSION,
            entries: Vec::new(),
            body: slice_to_vec(slice_subrange(data, HEADER_LEN, HEADER_LEN + bl)),
            dirty: false,
        };
        let ghost body = data@.subrange(HEADER_LEN as int, HEADER_LEN + bl);
        assert(g.records() =~= Seq::<GrfRecord>::empty());
        let mut pos: usize = 0;
        while pos < t.len()
            invariant
                pos <= t@.len(),
                g.body() == body,
                body.len() == bl,
                bl <= u32::MAX,
                g.version_spec() == VERSION,
                !g.is_dirty(),
                records_wf(g.records(), bl as int),
                data@.len() >= HEADER_LEN,
                data@.subrange(0, 16) == grf_magic(),
                le_u32(data@.subrange(42, 46)) == VERSION,
                bl == le_u32(data@.subrange(30, 34)),
                clen == le_u32(data@.subrange(46 + bl, 50 + bl)),
                54 + bl + clen <= data@.len(),
                zlib_decoded(data@.subrange(54 + bl, 54 + bl + clen)) == Some(t@),
                body == data@.subrange(46, 46 + bl),
                table_records(t@, 0, bl as int) == prepend(g.records(), table_records(t@, pos as int, bl as int)),
            decreases t@.len() - pos,
        {
            let mut z: usize = pos;
            while z < t.len() && t[z] != 0
                invariant
                    pos <= z <= t@.len(),
                    nul_at(t@, pos as int) == nul_at(t@, z as int),
                decreases t@.len() - z,
            {
                z = z + 1;
            }
            assert(nul_at(t@, z as int) == z);
            if z >= t.len() || t.len() - z - 1 < ENTRY_FIXED_LEN {
                assert(table_records(t@, pos as int, bl as int) is None);
                return Err(Error::InvalidGrfFormat);
            }
            let name = slice_subrange(t, pos, z);
            let e = GrfEntry {
                filename: slice_to_vec(name),
                compressed_size: read_u32_le(t, z + 1),
                aligned_size: read_u32_le(t, z + 5),
                uncompressed_size: read_u32_le(t, z + 9),
                flags: t[z + 13],
                offset: read_u32_le(t, z + 14),
            };
            assert(e@ == record_at(t@, pos as int, z as int));
            if e.offset as usize > bl || e.compressed_size as usize > bl - e.offset as usize {
                assert(table_records(t@, pos as int, bl as int) is None);
                return Err(Error::InvalidGrfFormat);
            }
            assert(table_records(t@, pos as int, bl as int) == prepend(
                seq![e@],
                table_records(t@, z + 18, bl as int),
            ));
            match g.find_in(name) {
                Some(i) => {
                    proof {
                        lemma_prepend_assoc(g.records(), seq![e@], table_records(t@, z + 18, bl as int));
                        if let Some(rest) = table_records(t@, z + 18, bl as int) {
                            let rs = g.records() + seq![e@] + rest;
                            let n = g.records().len() as int;
                            assert(rs[i as int] == g.records()[i as int]);
                            assert(rs[n] == e@);
                            assert(e@.filename == name@);
                            assert(rs[i as int].filename == rs[n].filename);
                            assert(!distinct_names(rs));
                        }
                    }
                    return Err(Error::InvalidGrfFormat);
                },
                None => {},
            }
            proof {
                lemma_prepend_assoc(g.records(), seq![e@], table_records(t@, z + 18, bl as int));
                assert(valid_name(e@.filename)) by {
                    lemma_nul_prefix(t@, pos as int, z as int);
                }
            }
            let ghost before = g.records();
            g.entries.push(e);
            assert(g.records() =~= before + seq![e@]);
            pos = z + 18;
        }
        assert(g.records() + Seq::<GrfRecord>::empty() =~= g.records());
        Ok(g)
    }
}

/// The bytes of one table entry.
pub open spec fn entry_bytes(r: GrfRecord) -> Seq<u8> {
    r.filename + seq![0u8] + u32_le(r.compressed_size) + u32_le(r.aligned_size) + u32_le(
        r.uncompressed_size,
    ) + seq![r.flags] + u32_le(r.offset)
}

/// The uncompressed table: the entries one after the other.
pub open spec fn table_bytes(rs: Seq<GrfRecord>) -> Seq<u8>
    decreases rs.len(),
{
    if rs.len() == 0 {
        seq![]
    } else {
        entry_bytes(rs[0]) + table_bytes(rs.drop_first())
    }
}

/// An image of an archive with table `rs` and data segment `body`: the header
/// with the magic, the body length and the version, the body, the compressed and
/// uncompressed table lengths, then a zlib stream that decodes to the table.
pub open spec fn saved_image(rs: Seq<GrfRecord>, body: Seq<u8>, img: Seq<u8>) -> bool {
    let bl = body.len() as int;
    &&& img.len() >= 54 + bl
    &&& img.subrange(0, 16) == grf_magic()
    &&& le_u32(img.subrange(30, 34)) as int == bl
    &&& le_u32(img.subrange(38, 42)) as int == rs.len() + 7
    &&& le_u32(img.subrange(42, 46)) == VERSION
    &&& img.subrange(46, 46 + bl) == body
    &&& le_u32(img.subrange(46 + bl, 50 + bl)) as int == img.len() - (54 + bl)
    &&& le_u32(img.subrange(50 + bl, 54 + bl)) as int == table_bytes(rs).len()
    &&& zlib_decoded(img.subrange(54 + bl, img.len() as int)) == Some(table_bytes(rs))
}

proof fn lemma_image_saved(rs: Seq<GrfRecord>, body: Seq<u8>)
    requires
        image_fits(rs),
        body.len() <= u32::MAX,
        zlib_decoded(zlib_compressed(table_bytes(rs))) == Some(table_bytes(rs)),
    ensures
        saved_image(rs, body, grf_image(rs, body)),
{
    let img = grf_image(rs, body);
    let bl = body.len() as int;
    let t = table_bytes(rs);
    let c = zlib_compressed(t);
    lemma_u32_le_round_trip(body.len() as u32);
    lemma_u32_le_round_trip((rs.len() + 7) as u32);
    lemma_u32_le_round_trip(VERSION);
    lemma_u32_le_round_trip(c.len() as u32);
    lemma_u32_le_round_trip(t.len() as u32);
    assert(img.subrange(0, 16) =~= grf_magic());
    assert(img.subrange(30, 34) =~= u32_le(body.len() as u32));
    assert(img.subrange(38, 42) =~= u32_le((rs.len() + 7) as u32));
    assert(img.subrange(42, 46) =~= u32_le(VERSION));
    assert(img.subrange(46, 46 + bl) =~= body);
    assert(img.subrange(46 + bl, 50 + bl) =~= u32_le(c.len() as u32));
    assert(img.subrange(50 + bl, 54 + bl) =~= u32_le(t.len() as u32));
    assert(img.subrange(54 + bl, img.len() as int) =~= c);
}

/// Index of the first NUL at or after `pos`, or the length where there is none.
pub open spec fn nul_at(t: Seq<u8>, pos: int) -> int
    decreases t.len() - pos,
{
    if pos < 0 || pos >= t.len() {
        t.len() as int
    } else if t[pos] == 0 {
        pos
    } else {
        nul_at(t, pos + 1)
    }
}

/// The entry whose name runs from `pos` to the NUL at `z`.
pub open spec fn record_at(t: Seq<u8>, pos: int, z: int) -> GrfRecord {
    GrfRecord {
        filename: t.subrange(pos, z),
        compressed_size: le_u32(t.subrange(z + 1, z + 5)),
        aligned_size: le_u32(t.subrange(z + 5, z + 9)),
        uncompressed_size: le_u32(t.subrange(z + 9, z + 13)),
        flags: t[z + 13],
        offset: le_u32(t.subrange(z + 14, z + 18)),
    }
}

/// The entries of the uncompressed table `t` from `pos` on; `None` where one is
/// cut short or its data lies outside a body of `body_len` bytes.
pub open spec fn table_records(t: Seq<u8>, pos: int, body_len: int) -> Option<Seq<GrfRecord>>
    decreases t.len() - pos,
{
    if pos < 0 || pos >= t.len() {
        Some(seq![])
    } else {
        let z = nul_at(t, pos);
        if z + 18 > t.len() {
            None
        } else {
            let r = record_at(t, pos, z);
            if r.offset + r.compressed_size > body_len {
                None
            } else if z + 18 <= pos {
                None
            } else {
                prepend(seq![r], table_records(t, z + 18, body_len))
            }
        }
    }
}

pub open spec fn prepend(a: Seq<GrfRecord>, rest: Option<Seq<GrfRecord>>) -> Option<Seq<GrfRecord>> {
    match rest {
        Some(r) => Some(a + r),
        None => None,
    }
}

/// Entries with pairwise distinct names.
pub open spec fn distinct_names(rs: Seq<GrfRecord>) -> bool {
    forall|i: int, j: int| 0 <= i < j < rs.len() ==> #[trigger] rs[i].filename != #[trigger] rs[j].filename
}

/// What opening the bytes `data` gives.
pub open spec fn opened_as(r: Result<Grf, Error>, data: Seq<u8>) -> bool {
    if data.len() < HEADER_LEN || data.subrange(0, 16) != grf_magic() || le_u32(data.subrange(42, 46)) != VERSION {
        r == Err::<Grf, Error>(Error::InvalidGrfFormat)
    } else {
        let bl = le_u32(data.subrange(30, 34)) as int;
        if HEADER_LEN + bl + 8 > data.len() {
            r == Err::<Grf, Error>(Error::UnexpectedEof)
        } else {
            let clen = le_u32(data.subrange(46 + bl, 50 + bl)) as int;
            if 54 + bl + clen > data.len() {
                r == Err::<Grf, Error>(Error::UnexpectedEof)
            } else {
                match zlib_decoded(data.subrange(54 + bl, 54 + bl + clen)) {
                    None => r matches Err(Error::Decompression(_)),
                    Some(t) => match table_records(t, 0, bl) {
                        Some(rs) => if distinct_names(rs) {
                            r matches Ok(g) && g.records() == rs && g.body() == data.subrange(46, 46 + bl)
                        } else {
                            r == Err::<Grf, Error>(Error::InvalidGrfFormat)
                        },
                        None => r == Err::<Grf, Error>(Error::InvalidGrfFormat),
                    },
                }
            }
        }
    }
}

proof fn lemma_prepend_assoc(a: Seq<GrfRecord>, b: Seq<GrfRecord>, r: Option<Seq<GrfRecord>>)
    ensures
        prepend(a, prepend(b, r)) == prepend(a + b, r),
{
    if let Some(x) = r {
        assert(a + (b + x) =~= (a + b) + x);
    }
}

proof fn lemma_nul_prefix(t: Seq<u8>, pos: int, z: int)
    requires
        0 <= pos <= z <= t.len(),
        nul_at(t, pos) == z,
    ensures
        valid_name(t.subrange(pos, z)),
    decreases z - pos,
{
    if pos < z {
        assert(t[pos] != 0);
        lemma_nul_prefix(t, pos + 1, z);
        assert forall|k: int| 0 <= k < z - pos implies t.subrange(pos, z)[k] != 0 by {
            if k > 0 {
                assert(t.subrange(pos, z)[k] == t.subrange(pos + 1, z)[k - 1]);
            }
        }
    }
}

proof fn lemma_table_push(rs: Seq<GrfRecord>, x: GrfRecord)
    ensures
        table_bytes(rs.push(x)) == table_bytes(rs) + entry_bytes(x),
    decreases rs.len(),
{
    if rs.len() == 0 {
        assert(rs.push(x).drop_first() =~= seq![]);
        assert(rs.push(x)[0] == x);
        assert(table_bytes(rs.push(x).drop_first()) == Seq::<u8>::empty());
        assert(entry_bytes(x) + Seq::<u8>::empty() =~= Seq::<u8>::empty() + entry_bytes(x));
    } else {
        assert(rs.push(x).drop_first() =~= rs.drop_first().push(x));
        lemma_table_push(rs.drop_first(), x);
        assert(rs.push(x)[0] == rs[0]);
        let a = entry_bytes(rs[0]);
        let b = table_bytes(rs.drop_first());
        assert(a + (b + entry_bytes(x)) =~= (a + b) + entry_bytes(x));
    }
}

proof fn lemma_nul_scan(t: Seq<u8>, pos: int, z: int)
    requires
        0 <= pos <= z < t.len(),
        t[z] == 0,
        forall|i: int| pos <= i < z ==> t[i] != 0,
    ensures
        nul_at(t, pos) == z,
    decreases z - pos,
{
    if pos < z {
        lemma_nul_scan(t, pos + 1, z);
    }
}

proof fn lemma_entry_step(s: Seq<u8>, k: int, x: GrfRecord, bl: int)
    requires
        valid_name(x.filename),
        x.offset + x.compressed_size <= bl,
        0 <= k,
        k + entry_bytes(x).len() <= s.len(),
        s.subrange(k, k + entry_bytes(x).len()) == entry_bytes(x),
    ensures
        table_records(s, k, bl) == prepend(seq![x], table_records(s, k + entry_bytes(x).len(), bl)),
{
    let e = entry_bytes(x);
    let m = x.filename.len() as int;
    assert(e.len() == m + 18);
    assert(e.subrange(0, m) =~= x.filename);
    lemma_sub(s, k, e, 0, m);
    assert forall|i: int| k <= i < k + m implies s[i] != 0 by {
        assert(s.subrange(k, k + m)[i - k] == x.filename[i - k]);
    }
    assert(s[k + m] == e[m]);
    lemma_nul_scan(s, k, k + m);
    let z = k + m;
    lemma_u32_le_round_trip(x.compressed_size);
    lemma_u32_le_round_trip(x.aligned_size);
    lemma_u32_le_round_trip(x.uncompressed_size);
    lemma_u32_le_round_trip(x.offset);
    assert(e.subrange(m + 1, m + 5) =~= u32_le(x.compressed_size));
    lemma_sub(s, k, e, m + 1, m + 5);
    assert(e.subrange(m + 5, m + 9) =~= u32_le(x.aligned_size));
    lemma_sub(s, k, e, m + 5, m + 9);
    assert(e.subrange(m + 9, m + 13) =~= u32_le(x.uncompressed_size));
    lemma_sub(s, k, e, m + 9, m + 13);
    assert(s[z + 13] == e[m + 13]);
    assert(e.subrange(m + 14, m + 18) =~= u32_le(x.offset));
    lemma_sub(s, k, e, m + 14, m + 18);
    assert(record_at(s, k, z) == x);
}

proof fn lemma_wf_rest(rs: Seq<GrfRecord>, bl: int)
    requires
        records_wf(rs, bl),
        rs.len() > 0,
    ensures
        records_wf(rs.drop_first(), bl),
{
    let rest = rs.drop_first();
    assert forall|i: int, j: int| 0 <= i < j < rest.len() implies #[trigger] rest[i].filename != #[trigger] rest[j].filename by {
        assert(rs[i + 1].filename != rs[j + 1].filename);
    }
    assert forall|i: int| 0 <= i < rest.len() implies valid_name(#[trigger] rest[i].filename) by {
        assert(valid_name(rs[i + 1].filename));
    }
    assert forall|i: int| 0 <= i < rest.len() implies #[trigger] rest[i].offset + rest[i].compressed_size <= bl by {
        assert(rs[i + 1].offset + rs[i + 1].compressed_size <= bl);
    }
}

#[verifier::rlimit(40)]
proof fn lemma_table_round_trip(p: Seq<u8>, rs: Seq<GrfRecord>, bl: int)
    requires
        records_wf(rs, bl),
    ensures
        table_records(p + table_bytes(rs), p.len() as int, bl) == Some(rs),
    decreases rs.len(),
{
    let s = p + table_bytes(rs);
    let k = p.len() as int;
    if rs.len() == 0 {
        assert(rs =~= seq![]);
    } else {
        let x = rs[0];
        let rest = rs.drop_first();
        assert(valid_name(x.filename));
        assert(x.offset + x.compressed_size <= bl);
        lemma_wf_rest(rs, bl);
        let e = entry_bytes(x);
        let tb = table_bytes(rest);
        assert(table_bytes(rs) == e + tb);
        let p2 = p + e;
        assert(s =~= p2 + tb);
        lemma_table_round_trip(p2, rest, bl);
        assert(s.subrange(k, k + e.len()) =~= e);
        lemma_entry_step(s, k, x, bl);
        assert(p2.len() == k + e.len());
        assert(seq![x] + rest =~= rs);
    }
}

/// Opening a saved image gives back the table and data segment that were saved.
pub proof fn lemma_open_saved(rs: Seq<GrfRecord>, body: Seq<u8>, img: Seq<u8>, opened: Result<Grf, Error>)
    requires
        records_wf(rs, body.len() as int),
        body.len() <= u32::MAX,
        saved_image(rs, body, img),
        opened_as(opened, img),
    ensures
        opened matches Ok(g) && g.records() == rs && g.body() == body,
{
    let bl = body.len() as int;
    lemma_table_round_trip(seq![], rs, bl);
    assert(Seq::<u8>::empty() + table_bytes(rs) =~= table_bytes(rs));
    assert(54 + bl + (img.len() - (54 + bl)) == img.len());
}

/// Patching a file into a GRF, saving it and opening the saved image again gives
/// back the patched data under that name: where `patched` holds `data` under
/// `name`, `image` is what saving `patched` wrote, and `opened` is what opening
/// `image` gave, `opened` is an archive that holds `data` under `name`.
pub proof fn lemma_patch_save_open_read(
    patched: Grf,
    name: Seq<u8>,
    data: Seq<u8>,
    image: Seq<u8>,
    opened: Result<Grf, Error>,
)
    requires
        patched.wf(),
        patched.content(name) == Some(data),
        saved_image(patched.records(), patched.body(), image),
        opened_as(opened, image),
    ensures
        opened matches Ok(g) && g.content(name) == Some(data),
{
    lemma_open_saved(patched.records(), patched.body(), image, opened);
}

} // verus!
