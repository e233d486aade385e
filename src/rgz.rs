//! RGZ carriers: a gzip stream of tagged records (`f` file, `d` directory),
//! ended by `e`.
use crate::bytes::{le_u32, u32_le, lemma_u32_le_round_trip, push_all, push_u32_le, read_u32_le};
use crate::codec::{decode_lossy, gunzip, gzip, gzip_decoded, lossy_utf8};
use crate::error::{reported_as, truncated, Error};
use crate::seqs::{lemma_prepend_assoc, lemma_sub, lemma_views_push, prepend, views};
use vstd::prelude::*;
use vstd::slice::slice_subrange;
use vstd::slice::slice_to_vec;
use vstd::utf8::encode_utf8;

verus! {

broadcast use vstd::utf8::encode_utf8_valid_utf8, vstd::utf8::encode_utf8_decode_utf8;

pub const TAG_FILE: u8 = 0x66;

pub const TAG_DIR: u8 = 0x64;

pub const TAG_END: u8 = 0x65;

/// Longest name, in bytes, that a record can hold beside its NUL.
pub const MAX_NAME_LEN: usize = 254;

/// One record of an RGZ carrier.
#[derive(Debug, Clone, PartialEq, Eq)]
pub enum RgzEntry {
    File { name: String, data: Vec<u8> },
    Directory { name: String },
}

/// What an RGZ record holds.
pub enum RgzRecord {
    File { name: Seq<char>, data: Seq<u8> },
    Directory { name: Seq<char> },
}

impl View for RgzEntry {
    type V = RgzRecord;

    open spec fn view(&self) -> RgzRecord {
        match self {
            RgzEntry::File { name, data } => RgzRecord::File { name: name@, data: data@ },
            RgzEntry::Directory { name } => RgzRecord::Directory { name: name@ },
        }
    }
}

/// An RGZ carrier: its records in order.
#[derive(Debug)]
pub struct Rgz {
    pub entries: Vec<RgzEntry>,
}

impl View for Rgz {
    type V = Seq<RgzRecord>;

    open spec fn view(&self) -> Seq<RgzRecord> {
        views(self.entries@)
    }
}

/// The name held in the `n` bytes at `pos`: all but the last (the NUL).
pub open spec fn record_name(s: Seq<u8>, pos: int, n: int) -> Seq<char> {
    lossy_utf8(s.subrange(pos, pos + if n > 0 { n - 1 } else { 0 }))
}

/// The records of the decompressed stream `s` from `pos` on. The stream ends at
/// its end or at an `e` record.
pub open spec fn records_from(s: Seq<u8>, pos: int) -> Result<Seq<RgzRecord>, Error>
    decreases s.len() - pos,
{
    if pos < 0 || pos >= s.len() {
        Ok(seq![])
    } else if s[pos] == TAG_END {
        Ok(seq![])
    } else if s[pos] == TAG_FILE || s[pos] == TAG_DIR {
        if pos + 2 > s.len() {
            Err(Error::UnexpectedEof)
        } else {
            let n = s[pos + 1] as int;
            let name = record_name(s, pos + 2, n);
            if s[pos] == TAG_DIR {
                if pos + 2 + n > s.len() {
                    Err(Error::UnexpectedEof)
                } else {
                    prepend(seq![RgzRecord::Directory { name }], records_from(s, pos + 2 + n))
                }
            } else if pos + 2 + n + 4 > s.len() {
                Err(Error::UnexpectedEof)
            } else {
                let size = le_u32(s.subrange(pos + 2 + n, pos + 6 + n)) as int;
                if pos + 6 + n + size > s.len() {
                    Err(Error::UnexpectedEof)
                } else {
                    let data = s.subrange(pos + 6 + n, pos + 6 + n + size);
                    prepend(
                        seq![RgzRecord::File { name, data }],
                        records_from(s, pos + 6 + n + size),
                    )
                }
            }
        }
    } else {
        Err(Error::InvalidRgzFormat)
    }
}

/// The bytes of a name field: its length with the NUL, the name, the NUL.
pub open spec fn name_field(name: Seq<char>) -> Seq<u8> {
    seq![(encode_utf8(name).len() + 1) as u8] + encode_utf8(name) + seq![0u8]
}

/// The bytes of one record.
pub open spec fn record_bytes(r: RgzRecord) -> Seq<u8> {
    match r {
        RgzRecord::File { name, data } => seq![TAG_FILE] + name_field(name) + u32_le(
            data.len() as u32,
        ) + data,
        RgzRecord::Directory { name } => seq![TAG_DIR] + name_field(name),
    }
}

/// The records one after the other.
pub open spec fn records_body(rs: Seq<RgzRecord>) -> Seq<u8>
    decreases rs.len(),
{
    if rs.len() == 0 {
        seq![]
    } else {
        record_bytes(rs[0]) + records_body(rs.drop_first())
    }
}

/// The decompressed stream that holds `rs`: the records, then `e`.
pub open spec fn rgz_stream(rs: Seq<RgzRecord>) -> Seq<u8> {
    records_body(rs) + seq![TAG_END]
}

/// A record whose name fits its length byte and whose data fits its `u32` size.
pub open spec fn writable(r: RgzRecord) -> bool {
    match r {
        RgzRecord::File { name, data } => encode_utf8(name).len() <= MAX_NAME_LEN
            && data.len() <= u32::MAX,
        RgzRecord::Directory { name } => encode_utf8(name).len() <= MAX_NAME_LEN,
    }
}

/// A record whose name fits its length byte.
pub open spec fn name_fits(r: RgzRecord) -> bool {
    match r {
        RgzRecord::File { name, .. } => encode_utf8(name).len() <= MAX_NAME_LEN,
        RgzRecord::Directory { name } => encode_utf8(name).len() <= MAX_NAME_LEN,
    }
}

pub open spec fn all_names_fit(rs: Seq<RgzRecord>) -> bool {
    forall|i: int| 0 <= i < rs.len() ==> #[trigger] name_fits(rs[i])
}

pub open spec fn all_writable(rs: Seq<RgzRecord>) -> bool {
    forall|i: int| 0 <= i < rs.len() ==> #[trigger] writable(rs[i])
}

proof fn lemma_body_push(rs: Seq<RgzRecord>, x: RgzRecord)
    ensures
        records_body(rs.push(x)) == records_body(rs) + record_bytes(x),
    decreases rs.len(),
{
    if rs.len() == 0 {
        assert(rs.push(x).drop_first() =~= seq![]);
        assert(rs.push(x)[0] == x);
        assert(records_body(rs.push(x).drop_first()) == Seq::<u8>::empty());
        assert(records_body(rs) == Seq::<u8>::empty());
        assert(record_bytes(x) + Seq::<u8>::empty() =~= Seq::<u8>::empty() + record_bytes(x));
    } else {
        assert(rs.push(x).drop_first() =~= rs.drop_first().push(x));
        lemma_body_push(rs.drop_first(), x);
        assert(rs.push(x)[0] == rs[0]);
        let a = record_bytes(rs[0]);
        let b = records_body(rs.drop_first());
        assert(a + (b + record_bytes(x)) =~= (a + b) + record_bytes(x));
    }
}

proof fn lemma_name_field(s: Seq<u8>, k: int, name: Seq<char>)
    requires
        encode_utf8(name).len() <= MAX_NAME_LEN,
        0 <= k,
        k + name_field(name).len() <= s.len(),
        s.subrange(k, k + name_field(name).len()) == name_field(name),
    ensures
        s[k] as int == encode_utf8(name).len() + 1,
        record_name(s, k + 1, s[k] as int) == name,
        name_field(name).len() == encode_utf8(name).len() + 2,
{
    let nb = encode_utf8(name);
    let f = name_field(name);
    assert(f[0] == (nb.len() + 1) as u8);
    assert(s[k] == s.subrange(k, k + f.len())[0]);
    assert(s.subrange(k + 1, k + 1 + nb.len()) =~= f.subrange(1, 1 + nb.len() as int));
    assert(f.subrange(1, 1 + nb.len() as int) =~= nb);
}

proof fn lemma_step(s: Seq<u8>, k: int, x: RgzRecord)
    requires
        writable(x),
        0 <= k,
        k + record_bytes(x).len() <= s.len(),
        s.subrange(k, k + record_bytes(x).len()) == record_bytes(x),
    ensures
        records_from(s, k) == prepend(seq![x], records_from(s, k + record_bytes(x).len())),
{
    let r = record_bytes(x);
    assert(s[k] == r[0]);
    match x {
        RgzRecord::File { name, data } => {
            let f = name_field(name);
            let m = f.len() as int;
            assert(r =~= seq![TAG_FILE] + f + u32_le(data.len() as u32) + data);
            assert(r.subrange(1, 1 + m) =~= f);
            lemma_sub(s, k, r, 1, 1 + m);
            lemma_name_field(s, k + 1, name);
            let n = s[k + 1] as int;
            lemma_u32_le_round_trip(data.len() as u32);
            assert(r.subrange(1 + m, 5 + m) =~= u32_le(data.len() as u32));
            lemma_sub(s, k, r, 1 + m, 5 + m);
            assert(r.subrange(5 + m, 5 + m + data.len()) =~= data);
            lemma_sub(s, k, r, 5 + m, 5 + m + data.len());
        },
        RgzRecord::Directory { name } => {
            let f = name_field(name);
            let m = f.len() as int;
            assert(r =~= seq![TAG_DIR] + f);
            assert(r.subrange(1, 1 + m) =~= f);
            lemma_sub(s, k, r, 1, 1 + m);
            lemma_name_field(s, k + 1, name);
        },
    }
}

proof fn lemma_parse_body(p: Seq<u8>, rs: Seq<RgzRecord>)
    requires
        all_writable(rs),
    ensures
        records_from(p + records_body(rs) + seq![TAG_END], p.len() as int) == Ok::<
            Seq<RgzRecord>,
            Error,
        >(rs),
    decreases rs.len(),
{
    let s = p + records_body(rs) + seq![TAG_END];
    let k = p.len() as int;
    if rs.len() == 0 {
        assert(s[k] == TAG_END);
        assert(rs =~= seq![]);
    } else {
        let x = rs[0];
        let rest = rs.drop_first();
        assert(writable(x));
        assert forall|i: int| 0 <= i < rest.len() implies #[trigger] writable(rest[i]) by {
            assert(writable(rs[i + 1]));
        }
        let p2 = p + record_bytes(x);
        assert(s =~= p2 + records_body(rest) + seq![TAG_END]);
        lemma_parse_body(p2, rest);
        assert(s.subrange(k, k + record_bytes(x).len()) =~= record_bytes(x));
        lemma_step(s, k, x);
        assert(seq![x] + rest =~= rs);
    }
}

/// Reading back the stream written for writable records gives those records.
pub proof fn lemma_records_round_trip(rs: Seq<RgzRecord>)
    requires
        all_writable(rs),
    ensures
        records_from(rgz_stream(rs), 0) == Ok::<Seq<RgzRecord>, Error>(rs),
{
    lemma_parse_body(seq![], rs);
    assert(seq![] + records_body(rs) + seq![TAG_END] =~= rgz_stream(rs));
}

/// The result that a reader gives for what `records_from` says of a stream.
pub open spec fn read_as(r: Result<Rgz, Error>, spec: Result<Seq<RgzRecord>, Error>) -> bool {
    match spec {
        Ok(rs) => r matches Ok(g) && g@ == rs,
        Err(e) => r matches Err(x) && reported_as(x, e),
    }
}

impl Rgz {
    /// An empty carrier.
    pub fn new() -> (r: Rgz)
        ensures
            r@ == Seq::<RgzRecord>::empty(),
    {
        let r = Rgz { entries: Vec::new() };
        assert(r@ =~= Seq::<RgzRecord>::empty());
        r
    }

    /// The records in order.
    pub fn get_entries(&self) -> (r: &[RgzEntry])
        ensures
            r@ == self.entries@,
    {
        self.entries.as_slice()
    }

    /// Appends a file record.
    pub fn add_file(&mut self, name: &str, data: &[u8])
        ensures
            final(self)@ == old(self)@.push(RgzRecord::File { name: name@, data: data@ }),
    {
        let e = RgzEntry::File { name: name.to_owned(), data: slice_to_vec(data) };
        proof {
            lemma_views_push(self.entries@, e);
        }
        self.entries.push(e);
    }

    /// Appends a directory record.
    pub fn add_directory(&mut self, name: &str)
        ensures
            final(self)@ == old(self)@.push(RgzRecord::Directory { name: name@ }),
    {
        let e = RgzEntry::Directory { name: name.to_owned() };
        proof {
            lemma_views_push(self.entries@, e);
        }
        self.entries.push(e);
    }

    /// Reads the records of a decompressed stream.
    pub fn parse_records(s: &[u8]) -> (r: Result<Rgz, Error>)
        ensures
            read_as(r, records_from(s@, 0)),
    {
        let mut entries: Vec<RgzEntry> = Vec::new();
        let mut pos: usize = 0;
        assert(views(entries@) =~= Seq::<RgzRecord>::empty());
        assert(prepend(Seq::<RgzRecord>::empty(), records_from(s@, 0)) == records_from(s@, 0)) by {
            if let Ok(x) = records_from(s@, 0) {
                assert(Seq::<RgzRecord>::empty() + x =~= x);
            }
        }
        while pos < s.len()
            invariant
                pos <= s@.len(),
                records_from(s@, 0) == prepend(views(entries@), records_from(s@, pos as int)),
            decreases s@.len() - pos,
        {
            let tag = s[pos];
            if tag == TAG_END {
                assert(views(entries@) + Seq::<RgzRecord>::empty() =~= views(entries@));
                return Ok(Rgz { entries });
            }
            if tag != TAG_FILE && tag != TAG_DIR {
                return Err(Error::InvalidRgzFormat);
            }
            if s.len() - pos < 2 {
                return Err(truncated());
            }
            let n = s[pos + 1] as usize;
            let old_pos = pos;
            let e;
            if tag == TAG_DIR {
                if s.len() - (pos + 2) < n {
                    return Err(truncated());
                }
                let name_end = if n > 0 { pos + 2 + n - 1 } else { pos + 2 };
                let name = decode_lossy(slice_subrange(s, pos + 2, name_end));
                e = RgzEntry::Directory { name };
                pos = pos + 2 + n;
            } else {
                if s.len() - (pos + 2) < n + 4 {
                    return Err(truncated());
                }
                let name_end = if n > 0 { pos + 2 + n - 1 } else { pos + 2 };
                let name = decode_lossy(slice_subrange(s, pos + 2, name_end));
                let size = read_u32_le(s, pos + 2 + n) as usize;
                if s.len() - (pos + 6 + n) < size {
                    return Err(truncated());
                }
                let data = slice_to_vec(slice_subrange(s, pos + 6 + n, pos + 6 + n + size));
                e = RgzEntry::File { name, data };
                pos = pos + 6 + n + size;
            }
            proof {
                assert(records_from(s@, old_pos as int) == prepend(
                    seq![e@],
                    records_from(s@, pos as int),
                ));
                lemma_prepend_assoc(views(entries@), seq![e@], records_from(s@, pos as int));
                lemma_views_push(entries@, e);
            }
            entries.push(e);
        }
        assert(views(entries@) + Seq::<RgzRecord>::empty() =~= views(entries@));
        Ok(Rgz { entries })
    }

    /// Reads an RGZ carrier: gunzips `data`, then reads its records.
    pub fn from_bytes(data: &[u8]) -> (r: Result<Rgz, Error>)
        ensures
            gzip_decoded(data@) is None ==> r matches Err(Error::Decompression(_)),
            gzip_decoded(data@) matches Some(s) ==> read_as(r, records_from(s, 0)),
    {
        match gunzip(data) {
            None => Err(Error::Decompression("invalid gzip stream".to_owned())),
            Some(s) => Rgz::parse_records(s.as_slice()),
        }
    }

    /// The decompressed stream for these records; fails on a name over 254
    /// bytes, else on data over `u32::MAX` bytes.
    pub fn encode_records(&self) -> (r: Result<Vec<u8>, Error>)
        ensures
            r is Ok <==> all_writable(self@),
            r matches Ok(b) ==> b@ == rgz_stream(self@),
            !all_names_fit(self@) ==> (r matches Err(Error::Custom(m)) && m@
                == "Name too long (max 254 bytes)"@),
            all_names_fit(self@) && r is Err ==> (r matches Err(Error::Custom(m)) && m@
                == "File too large (max 4 GiB)"@),
    {
        let mut j: usize = 0;
        while j < self.entries.len()
            invariant
                j <= self.entries@.len(),
                forall|k: int| 0 <= k < j ==> #[trigger] name_fits(self@[k]),
            decreases self.entries@.len() - j,
        {
            let nb = match &self.entries[j] {
                RgzEntry::File { name, .. } => name.as_str().as_bytes(),
                RgzEntry::Directory { name } => name.as_str().as_bytes(),
            };
            assert(self@[j as int] == self.entries@[j as int]@);
            if nb.len() > MAX_NAME_LEN {
                assert(!name_fits(self@[j as int]));
                assert(!writable(self@[j as int]));
                proof {
                    reveal_strlit("Name too long (max 254 bytes)");
                }
                return Err(Error::Custom("Name too long (max 254 bytes)".to_owned()));
            }
            j = j + 1;
        }
        assert(all_names_fit(self@));
        let mut out: Vec<u8> = Vec::new();
        let mut i: usize = 0;
        while i < self.entries.len()
            invariant
                i <= self.entries@.len(),
                out@ == records_body(self@.subrange(0, i as int)),
                forall|j: int| 0 <= j < i ==> #[trigger] writable(self@[j]),
                all_names_fit(self@),
            decreases self.entries@.len() - i,
        {
            let e = &self.entries[i];
            let ghost before = out@;
            assert(self@[i as int] == e@);
            assert(name_fits(self@[i as int]));
            match e {
                RgzEntry::File { name, data } => {
                    let nb = name.as_str().as_bytes();
                    if nb.len() > MAX_NAME_LEN {
                        assert(!writable(self@[i as int]));
                        return Err(Error::Custom("Name too long (max 254 bytes)".to_owned()));
                    }
                    if data.len() > u32::MAX as usize {
                        assert(!writable(self@[i as int]));
                        proof {
                            reveal_strlit("File too large (max 4 GiB)");
                        }
                        return Err(Error::Custom("File too large (max 4 GiB)".to_owned()));
                    }
                    out.push(TAG_FILE);
                    out.push((nb.len() + 1) as u8);
                    push_all(&mut out, nb);
                    out.push(0u8);
                    push_u32_le(&mut out, data.len() as u32);
                    push_all(&mut out, data.as_slice());
                },
                RgzEntry::Directory { name } => {
                    let nb = name.as_str().as_bytes();
                    if nb.len() > MAX_NAME_LEN {
                        assert(!writable(self@[i as int]));
                        return Err(Error::Custom("Name too long (max 254 bytes)".to_owned()));
                    }
                    out.push(TAG_DIR);
                    out.push((nb.len() + 1) as u8);
                    push_all(&mut out, nb);
                    out.push(0u8);
                },
            }
            proof {
                assert(self@[i as int] == e@);
                assert(out@ =~= before + record_bytes(e@));
                assert(self@.subrange(0, i + 1) =~= self@.subrange(0, i as int).push(e@));
                lemma_body_push(self@.subrange(0, i as int), e@);
            }
            i = i + 1;
        }
        assert(self@.subrange(0, i as int) =~= self@);
        out.push(TAG_END);
        Ok(out)
    }

    /// The carrier bytes: the record stream, gzip-compressed. Reading them back
    /// gives these records.
    pub fn to_bytes(&self) -> (r: Result<Vec<u8>, Error>)
        ensures
            r is Ok <==> all_writable(self@),
            !all_names_fit(self@) ==> (r matches Err(Error::Custom(m)) && m@
                == "Name too long (max 254 bytes)"@),
            all_names_fit(self@) && r is Err ==> (r matches Err(Error::Custom(m)) && m@
                == "File too large (max 4 GiB)"@),
            r matches Ok(b) ==> gzip_decoded(b@) == Some(rgz_stream(self@)),
            r matches Ok(b) ==> gzip_decoded(b@) matches Some(s) && records_from(s, 0) == Ok::<
                Seq<RgzRecord>,
                Error,
            >(self@),
    {
        let stream = self.encode_records()?;
        proof {
            lemma_records_round_trip(self@);
        }
        Ok(gzip(stream.as_slice()))
    }
}

} // verus!
