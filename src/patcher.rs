//! Applying one patch: checksum verification, dispatch by extension, turning a
//! carrier into entries, merging them into the GRF, and recording the patch as
//! applied once the GRF is saved. Downloads and file writes are the caller's.
use crate::codec::{concat, gzip_decoded, sha256_hex, sha256_hex_of, zlib_compressed, zlib_decoded};
use crate::error::Error;
use crate::grf::{patch_fits, Grf};
use crate::patchlist::{AppliedSet, PatchInfo};
use crate::rgz::{records_from, Rgz, RgzEntry, RgzRecord};
use crate::thor::{header_table, table_from, Thor, ThorEntry, ThorRecord};
use vstd::prelude::*;
use vstd::slice::slice_to_vec;
use vstd::string::StrSliceExecFns;
use vstd::utf8::encode_utf8;

verus! {

/// The carrier formats, told apart by the patch's extension.
#[derive(Debug, Clone, Copy, PartialEq, Eq)]
pub enum PatchKind {
    Beam,
    Thor,
    Rgz,
    Gpf,
}

/// Index of the last `c` in `s`, or -1.
pub open spec fn last_index_of(s: Seq<char>, c: char) -> int
    decreases s.len(),
{
    if s.len() == 0 {
        -1
    } else if s.last() == c {
        s.len() - 1
    } else {
        last_index_of(s.drop_last(), c)
    }
}

/// The extension of the last path component of `s`: what follows its last `.`,
/// where that `.` is not the component's first character.
pub open spec fn extension_of(s: Seq<char>) -> Option<Seq<char>> {
    let base = s.subrange(last_index_of(s, '/') + 1, s.len() as int);
    let d = last_index_of(base, '.');
    if d <= 0 {
        None
    } else {
        Some(base.subrange(d + 1, base.len() as int))
    }
}

/// `c` is the lowercase ASCII letter `l` in either case.
pub open spec fn same_letter(c: char, l: char) -> bool {
    c == l || c as u32 + 32 == l as u32
}

/// `e` spells the lowercase word `w`, ignoring ASCII case.
pub open spec fn spells(e: Seq<char>, w: Seq<char>) -> bool {
    e.len() == w.len() && forall|i: int| 0 <= i < e.len() ==> same_letter(#[trigger] e[i], w[i])
}

/// The carrier format of a patch named `s`.
pub open spec fn kind_of(s: Seq<char>) -> Option<PatchKind> {
    match extension_of(s) {
        None => None,
        Some(e) => if spells(e, seq!['b', 'e', 'a', 'm']) {
            Some(PatchKind::Beam)
        } else if spells(e, seq!['t', 'h', 'o', 'r']) {
            Some(PatchKind::Thor)
        } else if spells(e, seq!['r', 'g', 'z']) {
            Some(PatchKind::Rgz)
        } else if spells(e, seq!['g', 'p', 'f']) {
            Some(PatchKind::Gpf)
        } else {
            None
        },
    }
}

proof fn lemma_last_index_range(s: Seq<char>, c: char)
    ensures
        -1 <= last_index_of(s, c) < s.len(),
    decreases s.len(),
{
    if s.len() > 0 {
        lemma_last_index_range(s.drop_last(), c);
    }
}

fn last_index(s: &Vec<char>, from: usize, c: char) -> (r: i64)
    requires
        from <= s@.len() < i64::MAX,
    ensures
        r == last_index_of(s@.subrange(from as int, s@.len() as int), c),
        -1 <= r < s@.len() - from,
{
    proof {
        lemma_last_index_range(s@.subrange(from as int, s@.len() as int), c);
    }
    let mut last: i64 = -1;
    let mut i: usize = from;
    while i < s.len()
        invariant
            from <= i <= s@.len() < i64::MAX,
            last == last_index_of(s@.subrange(from as int, i as int), c),
        decreases s@.len() - i,
    {
        assert(s@.subrange(from as int, i + 1).drop_last() =~= s@.subrange(from as int, i as int));
        if s[i] == c {
            last = (i - from) as i64;
        }
        i = i + 1;
    }
    last
}

fn spells_word(e: &Vec<char>, from: usize, w: &Vec<char>) -> (r: bool)
    requires
        from <= e@.len(),
        forall|i: int| 0 <= i < w@.len() ==> 'a' <= #[trigger] w@[i] <= 'z',
    ensures
        r == spells(e@.subrange(from as int, e@.len() as int), w@),
{
    let ghost x = e@.subrange(from as int, e@.len() as int);
    let elen = e.len();
    if elen - from != w.len() {
        return false;
    }
    let mut i: usize = 0;
    while i < w.len()
        invariant
            i <= w@.len(),
            from <= e@.len(),
            elen == e@.len(),
            e@.len() - from == w@.len(),
            forall|k: int| 0 <= k < w@.len() ==> 'a' <= #[trigger] w@[k] <= 'z',
            x.len() == w@.len(),
            x == e@.subrange(from as int, e@.len() as int),
            forall|k: int| 0 <= k < i ==> same_letter(#[trigger] x[k], w@[k]),
        decreases w@.len() - i,
    {
        assert(from + i < e@.len());
        let c = e[from + i];
        assert(x[i as int] == c);
        let l = w[i];
        if !(c == l || (c as u32) == (l as u32) - 32) {
            return false;
        }
        i = i + 1;
    }
    true
}

/// The carrier format named by the extension of `name`, ignoring ASCII case.
pub fn patch_kind(name: &str) -> (r: Option<PatchKind>)
    requires
        name@.len() < i64::MAX,
    ensures
        r == kind_of(name@),
{
    let n = name.unicode_len();
    let mut chars: Vec<char> = Vec::new();
    let mut i: usize = 0;
    while i < n
        invariant
            n == name@.len(),
            i <= n,
            chars@ == name@.subrange(0, i as int),
        decreases n - i,
    {
        chars.push(name.get_char(i));
        i = i + 1;
        assert(chars@ =~= name@.subrange(0, i as int));
    }
    assert(chars@ =~= name@);
    let slash = last_index(&chars, 0, '/');
    assert(chars@.subrange(0, n as int) =~= chars@);
    let b = (slash + 1) as usize;
    let d = last_index(&chars, b, '.');
    if d <= 0 {
        return None;
    }
    let start = b + d as usize + 1;
    let ghost base = chars@.subrange(b as int, n as int);
    assert(base.subrange(d + 1, base.len() as int) =~= chars@.subrange(start as int, n as int));
    if spells_word(&chars, start, &vec!['b', 'e', 'a', 'm']) {
        Some(PatchKind::Beam)
    } else if spells_word(&chars, start, &vec!['t', 'h', 'o', 'r']) {
        Some(PatchKind::Thor)
    } else if spells_word(&chars, start, &vec!['r', 'g', 'z']) {
        Some(PatchKind::Rgz)
    } else if spells_word(&chars, start, &vec!['g', 'p', 'f']) {
        Some(PatchKind::Gpf)
    } else {
        None
    }
}

/// A uniform entry of any carrier.
#[derive(Debug, Clone, PartialEq, Eq)]
pub enum CarrierEntry {
    AddFile { path: String, bytes: Vec<u8> },
    RemoveFile { path: String },
    Directory { path: String },
    /// A BEAM entry whose path in the GRF may differ from its path in the carrier.
    AddFileMapped { source_path: String, target_path: String, bytes: Vec<u8> },
}

/// The GRF name and data that an entry writes, if it writes one.
pub open spec fn write_of(e: CarrierEntry) -> Option<(Seq<u8>, Seq<u8>)> {
    match e {
        CarrierEntry::AddFile { path, bytes } => Some((encode_utf8(path@), bytes@)),
        CarrierEntry::AddFileMapped { target_path, bytes, .. } => Some(
            (encode_utf8(target_path@), bytes@),
        ),
        _ => None,
    }
}

/// What `name` holds after the entries are applied in order to a GRF where it
/// held `before`: the data of the last entry that writes it.
pub open spec fn content_after(ws: Seq<Option<(Seq<u8>, Seq<u8>)>>, name: Seq<u8>, before: Option<Seq<u8>>) -> Option<
    Seq<u8>,
>
    decreases ws.len(),
{
    if ws.len() == 0 {
        before
    } else {
        match ws.last() {
            Some((n, d)) => if n == name {
                Some(d)
            } else {
                content_after(ws.drop_last(), name, before)
            },
            None => content_after(ws.drop_last(), name, before),
        }
    }
}

/// Every write in `ws` succeeds when they are made in order on a GRF whose data
/// segment holds `body_len` bytes: each name is valid and each grown segment fits.
pub open spec fn writes_fit(body_len: int, ws: Seq<Option<(Seq<u8>, Seq<u8>)>>) -> bool
    decreases ws.len(),
{
    if ws.len() == 0 {
        true
    } else {
        match ws[0] {
            Some((n, d)) => patch_fits(body_len, n, d) && writes_fit(
                body_len + zlib_compressed(d).len(),
                ws.drop_first(),
            ),
            None => writes_fit(body_len, ws.drop_first()),
        }
    }
}

/// The writes of a sequence of entries.
pub open spec fn writes_of(es: Seq<CarrierEntry>) -> Seq<Option<(Seq<u8>, Seq<u8>)>> {
    es.map_values(|e: CarrierEntry| write_of(e))
}

/// The writes of RGZ records: files write their name, directories nothing.
pub open spec fn rgz_writes(rs: Seq<RgzRecord>) -> Seq<Option<(Seq<u8>, Seq<u8>)>> {
    rs.map_values(
        |r: RgzRecord|
            match r {
                RgzRecord::File { name, data } => Some((encode_utf8(name), data)),
                RgzRecord::Directory { .. } => None,
            },
    )
}

/// The writes of THOR records: adds write their name, removes nothing.
pub open spec fn thor_writes(rs: Seq<ThorRecord>) -> Seq<Option<(Seq<u8>, Seq<u8>)>> {
    rs.map_values(
        |r: ThorRecord|
            match r {
                ThorRecord::Add { filename, data } => Some((encode_utf8(filename), data)),
                ThorRecord::Remove { .. } => None,
            },
    )
}

/// Applies the entries in order: adds write the GRF, removes and directories
/// change nothing. Stops at the first write that fails; the GRF must then not be
/// saved.
pub fn apply_entries(grf: &mut Grf, entries: &Vec<CarrierEntry>) -> (r: Result<(), Error>)
    requires
        old(grf).wf(),
    ensures
        final(grf).wf(),
        r matches Err(e) ==> e is Custom,
        r is Ok <==> writes_fit(old(grf).body().len() as int, writes_of(entries@)),
        r is Ok ==> forall|n: Seq<u8>|
            #[trigger] final(grf).content(n) == content_after(writes_of(entries@), n, old(grf).content(n)),
        r is Ok ==> final(grf).version_spec() == old(grf).version_spec(),
{
    let ghost w = writes_of(entries@);
    assert(w.subrange(0, w.len() as int) =~= w);
    let mut i: usize = 0;
    while i < entries.len()
        invariant
            i <= entries@.len(),
            w == writes_of(entries@),
            grf.wf(),
            grf.version_spec() == old(grf).version_spec(),
            writes_fit(old(grf).body().len() as int, w) == writes_fit(
                grf.body().len() as int,
                w.subrange(i as int, w.len() as int),
            ),
            forall|n: Seq<u8>|
                #[trigger] grf.content(n) == content_after(writes_of(entries@.subrange(0, i as int)), n, old(grf).content(n)),
        decreases entries@.len() - i,
    {
        let ghost before = *grf;
        let ghost es = entries@.subrange(0, i + 1);
        let ghost rest = w.subrange(i as int, w.len() as int);
        assert(writes_of(es).drop_last() =~= writes_of(entries@.subrange(0, i as int)));
        assert(writes_of(es).last() == write_of(entries@[i as int]));
        assert(rest[0] == w[i as int]);
        assert(rest.drop_first() =~= w.subrange(i + 1, w.len() as int));
        let res = match &entries[i] {
            CarrierEntry::AddFile { path, bytes } => grf.patch_file(path.as_str().as_bytes(), bytes.as_slice()),
            CarrierEntry::AddFileMapped { target_path, bytes, .. } => grf.patch_file(
                target_path.as_str().as_bytes(),
                bytes.as_slice(),
            ),
            _ => Ok(()),
        };
        if res.is_err() {
            return res;
        }
        assert forall|n: Seq<u8>| #[trigger] grf.content(n) == content_after(writes_of(es), n, old(grf).content(n)) by {
            assert(before.content(n) == content_after(writes_of(entries@.subrange(0, i as int)), n, old(grf).content(n)));
        }
        i = i + 1;
    }
    assert(entries@.subrange(0, i as int) =~= entries@);
    Ok(())
}

/// `c` is the uniform entry of the RGZ record `e`.
pub open spec fn rgz_entry_as(e: RgzRecord, c: CarrierEntry) -> bool {
    match e {
        RgzRecord::File { name, data } => c matches CarrierEntry::AddFile { path, bytes } && path@
            == name && bytes@ == data,
        RgzRecord::Directory { name } => c matches CarrierEntry::Directory { path } && path@ == name,
    }
}

/// `c` is the uniform entry of the THOR record `e`.
pub open spec fn thor_entry_as(e: ThorRecord, c: CarrierEntry) -> bool {
    match e {
        ThorRecord::Add { filename, data } => c matches CarrierEntry::AddFile { path, bytes }
            && path@ == filename && bytes@ == data,
        ThorRecord::Remove { filename } => c matches CarrierEntry::RemoveFile { path } && path@
            == filename,
    }
}

/// The entries of a THOR carrier: adds stay adds, removes stay removes.
pub fn thor_entries(thor: &Thor) -> (r: Vec<CarrierEntry>)
    ensures
        r@.len() == thor.entries@.len(),
        forall|i: int| 0 <= i < r@.len() ==> thor_entry_as(thor.entries@[i]@, #[trigger] r@[i]),
{
    let mut out: Vec<CarrierEntry> = Vec::new();
    let mut i: usize = 0;
    while i < thor.entries.len()
        invariant
            i <= thor.entries@.len(),
            out@.len() == i,
            forall|j: int| 0 <= j < i ==> thor_entry_as(thor.entries@[j]@, #[trigger] out@[j]),
        decreases thor.entries@.len() - i,
    {
        let e = match &thor.entries[i] {
            ThorEntry::Add { filename, data } => CarrierEntry::AddFile {
                path: filename.clone(),
                bytes: slice_to_vec(data.as_slice()),
            },
            ThorEntry::Remove { filename } => CarrierEntry::RemoveFile { path: filename.clone() },
        };
        out.push(e);
        i = i + 1;
    }
    out
}

/// The entries of an RGZ carrier: files become adds, directories stay.
pub fn rgz_entries(rgz: &Rgz) -> (r: Vec<CarrierEntry>)
    ensures
        r@.len() == rgz.entries@.len(),
        forall|i: int| 0 <= i < r@.len() ==> rgz_entry_as(rgz.entries@[i]@, #[trigger] r@[i]),
{
    let mut out: Vec<CarrierEntry> = Vec::new();
    let mut i: usize = 0;
    while i < rgz.entries.len()
        invariant
            i <= rgz.entries@.len(),
            out@.len() == i,
            forall|j: int| 0 <= j < i ==> rgz_entry_as(rgz.entries@[j]@, #[trigger] out@[j]),
        decreases rgz.entries@.len() - i,
    {
        let e = match &rgz.entries[i] {
            RgzEntry::File { name, data } => CarrierEntry::AddFile {
                path: name.clone(),
                bytes: slice_to_vec(data.as_slice()),
            },
            RgzEntry::Directory { name } => CarrierEntry::Directory { path: name.clone() },
        };
        out.push(e);
        i = i + 1;
    }
    out
}

/// A BEAM entry as its reader hands it over: its name, its GRF path where it
/// differs, whether its MD5 matched, and its data.
#[derive(Debug, Clone)]
pub struct BeamItem {
    pub filename: String,
    pub grf_path: Option<String>,
    pub verified: bool,
    pub data: Vec<u8>,
}

/// The uniform entries of a BEAM carrier, each written to its GRF path (or its
/// name). Every entry must have passed its MD5 check: the first that did not
/// fails the whole patch.
pub fn beam_entries(items: &Vec<BeamItem>) -> (r: Result<Vec<CarrierEntry>, Error>)
    ensures
        r is Ok <==> forall|i: int| 0 <= i < items@.len() ==> #[trigger] items@[i].verified,
        r matches Err(e) ==> exists|i: int|
            0 <= i < items@.len() && !items@[i].verified && (forall|j: int| 0 <= j < i ==> #[trigger] items@[j].verified)
                && (e matches Error::PatchFailed(m) && m@ == "MD5 verification failed for: "@ + items@[i].filename@),
        r matches Ok(es) ==> es@.len() == items@.len() && forall|i: int| 0 <= i < es@.len() ==> #[trigger] write_of(es@[i]) == Some((
            encode_utf8(match items@[i].grf_path { Some(p) => p@, None => items@[i].filename@ }),
            items@[i].data@,
        )),
{
    let mut i: usize = 0;
    while i < items.len()
        invariant
            i <= items@.len(),
            forall|j: int| 0 <= j < i ==> #[trigger] items@[j].verified,
        decreases items@.len() - i,
    {
        if !items[i].verified {
            let m = concat("MD5 verification failed for: ", items[i].filename.as_str());
            return Err(Error::PatchFailed(m));
        }
        i = i + 1;
    }
    let mut out: Vec<CarrierEntry> = Vec::new();
    let mut k: usize = 0;
    while k < items.len()
        invariant
            k <= items@.len(),
            out@.len() == k,
            forall|j: int| 0 <= j < k ==> #[trigger] write_of(out@[j]) == Some((
                encode_utf8(match items@[j].grf_path { Some(p) => p@, None => items@[j].filename@ }),
                items@[j].data@,
            )),
        decreases items@.len() - k,
    {
        let it = &items[k];
        let target = match &it.grf_path {
            Some(p) => p.clone(),
            None => it.filename.clone(),
        };
        out.push(CarrierEntry::AddFileMapped {
            source_path: it.filename.clone(),
            target_path: target,
            bytes: slice_to_vec(it.data.as_slice()),
        });
        k = k + 1;
    }
    Ok(out)
}

/// The GRF path of a BEAM item: its `grf_path`, else its name.
pub open spec fn beam_target(it: BeamItem) -> Seq<char> {
    match it.grf_path {
        Some(p) => p@,
        None => it.filename@,
    }
}

/// The writes of BEAM items: each writes its data to its GRF path.
pub open spec fn beam_writes(items: Seq<BeamItem>) -> Seq<Option<(Seq<u8>, Seq<u8>)>> {
    items.map_values(|it: BeamItem| Some((encode_utf8(beam_target(it)), it.data@)))
}

/// Applies a BEAM carrier's items: first every item's MD5 check, and only if all
/// passed, their writes in order. A failed check leaves the GRF unchanged.
pub fn apply_beam_items(grf: &mut Grf, items: &Vec<BeamItem>) -> (r: Result<(), Error>)
    requires
        old(grf).wf(),
    ensures
        final(grf).wf(),
        !(forall|i: int| 0 <= i < items@.len() ==> #[trigger] items@[i].verified) ==> *final(grf)
            == *old(grf) && exists|i: int|
            0 <= i < items@.len() && !items@[i].verified && (forall|j: int| 0 <= j < i ==> #[trigger] items@[j].verified)
                && (r matches Err(Error::PatchFailed(m)) && m@ == "MD5 verification failed for: "@ + items@[i].filename@),
        (forall|i: int| 0 <= i < items@.len() ==> #[trigger] items@[i].verified) ==> (r is Ok <==> writes_fit(
            old(grf).body().len() as int,
            beam_writes(items@),
        )),
        r is Ok ==> forall|n: Seq<u8>|
            #[trigger] final(grf).content(n) == content_after(beam_writes(items@), n, old(grf).content(n)),
{
    let es = beam_entries(items)?;
    proof {
        assert forall|i: int| 0 <= i < es@.len() implies #[trigger] writes_of(es@)[i] == beam_writes(items@)[i] by {
            assert(write_of(es@[i]) == Some((encode_utf8(beam_target(items@[i])), items@[i].data@)));
        }
        assert(writes_of(es@) =~= beam_writes(items@));
    }
    apply_entries(grf, &es)
}

/// Whether a checksum passes, given the digest `actual`: always where
/// verification is disabled, else where it equals `expected`.
pub fn checksum_agrees(enabled: bool, actual: &str, expected: &str) -> (r: bool)
    ensures
        r == (!enabled || actual@ == expected@),
{
    if !enabled {
        return true;
    }
    actual.to_owned() == expected.to_owned()
}

/// Whether `data` passes its checksum: always where verification is disabled,
/// else where its SHA-256 in lowercase hex equals `expected`.
pub fn verify_checksum(enabled: bool, data: &[u8], expected: &str) -> (r: bool)
    ensures
        r == (!enabled || sha256_hex(data@) == expected@),
{
    if !enabled {
        return true;
    }
    let actual = sha256_hex_of(data);
    checksum_agrees(enabled, actual.as_str(), expected)
}

/// Whether a downloaded patch passes its checksum: always where the patch list
/// gave it none or verification is disabled, else where the SHA-256 of `data`
/// in lowercase hex equals the listed one.
pub fn patch_passes_checksum(enabled: bool, patch: &PatchInfo, data: &[u8]) -> (r: bool)
    ensures
        r == match patch@.checksum {
            None => true,
            Some(c) => !enabled || sha256_hex(data@) == c,
        },
{
    match &patch.checksum {
        None => true,
        Some(c) => verify_checksum(enabled, data, c.as_str()),
    }
}

/// The records of a THOR file, where it reads without error.
pub open spec fn thor_records(data: Seq<u8>) -> Option<Seq<ThorRecord>> {
    match header_table(data) {
        Ok((off, len)) => match zlib_decoded(data.subrange(off, off + len)) {
            Some(t) => match table_from(t, 0, data) {
                Ok(rs) => Some(rs),
                Err(_) => None,
            },
            None => None,
        },
        Err(_) => None,
    }
}

/// The records of an RGZ file, where it reads without error.
pub open spec fn rgz_records(data: Seq<u8>) -> Option<Seq<RgzRecord>> {
    match gzip_decoded(data) {
        Some(s) => match records_from(s, 0) {
            Ok(rs) => Some(rs),
            Err(_) => None,
        },
        None => None,
    }
}

proof fn lemma_writes_rgz(rgz: &Rgz, es: Seq<CarrierEntry>)
    requires
        es.len() == rgz.entries@.len(),
        forall|i: int| 0 <= i < es.len() ==> rgz_entry_as(rgz.entries@[i]@, #[trigger] es[i]),
    ensures
        writes_of(es) == rgz_writes(rgz@),
{
    assert forall|i: int| 0 <= i < es.len() implies #[trigger] writes_of(es)[i] == rgz_writes(rgz@)[i] by {
        assert(rgz_entry_as(rgz.entries@[i]@, es[i]));
    }
    assert(writes_of(es) =~= rgz_writes(rgz@));
}

proof fn lemma_writes_thor(thor: &Thor, es: Seq<CarrierEntry>)
    requires
        es.len() == thor.entries@.len(),
        forall|i: int| 0 <= i < es.len() ==> thor_entry_as(thor.entries@[i]@, #[trigger] es[i]),
    ensures
        writes_of(es) == thor_writes(thor@),
{
    assert forall|i: int| 0 <= i < es.len() implies #[trigger] writes_of(es)[i] == thor_writes(thor@)[i] by {
        assert(thor_entry_as(thor.entries@[i]@, es[i]));
    }
    assert(writes_of(es) =~= thor_writes(thor@));
}

/// Merges the patch file `filename`, whose bytes are `data`, into `grf`: picks
/// the carrier by extension, reads it, then applies its entries in order. A read
/// error leaves the GRF unchanged; after any error the GRF must not be saved.
pub fn apply_patch_bytes(grf: &mut Grf, filename: &str, data: &[u8]) -> (r: Result<(), Error>)
    requires
        old(grf).wf(),
        filename@.len() < i64::MAX,
    ensures
        final(grf).wf(),
        kind_of(filename@) is None ==> (r matches Err(Error::PatchFailed(m)) && m@ == "Unknown patch format"@),
        (kind_of(filename@) is None || r is Err) && !(r matches Err(Error::Custom(_))) ==> *final(grf) == *old(grf),
        kind_of(filename@) == Some(PatchKind::Rgz) ==> match rgz_records(data@) {
            None => r is Err,
            Some(rs) => (r is Ok <==> writes_fit(old(grf).body().len() as int, rgz_writes(rs))) && (r is Ok ==> forall|n: Seq<u8>| #[trigger] final(grf).content(n) == content_after(rgz_writes(rs), n, old(grf).content(n))) && (r matches Err(e) ==> e is Custom),
        },
        kind_of(filename@) == Some(PatchKind::Thor) ==> match thor_records(data@) {
            None => r is Err,
            Some(rs) => (r is Ok <==> writes_fit(old(grf).body().len() as int, thor_writes(rs))) && (r is Ok ==> forall|n: Seq<u8>| #[trigger] final(grf).content(n) == content_after(thor_writes(rs), n, old(grf).content(n))) && (r matches Err(e) ==> e is Custom),
        },
        kind_of(filename@) == Some(PatchKind::Beam) || kind_of(filename@) == Some(PatchKind::Gpf) ==> (r matches Err(Error::PatchFailed(m)) && m@ == "no reader for this carrier format"@),
{
    match patch_kind(filename) {
        None => {
            let m = "Unknown patch format".to_owned();
            proof {
                reveal_strlit("Unknown patch format");
            }
            Err(Error::PatchFailed(m))
        },
        Some(PatchKind::Rgz) => {
            let rgz = Rgz::from_bytes(data)?;
            let es = rgz_entries(&rgz);
            proof {
                lemma_writes_rgz(&rgz, es@);
            }
            apply_entries(grf, &es)
        },
        Some(PatchKind::Thor) => {
            let thor = Thor::from_bytes(data)?;
            let es = thor_entries(&thor);
            proof {
                lemma_writes_thor(&thor, es@);
            }
            apply_entries(grf, &es)
        },
        Some(_) => {
            proof {
                reveal_strlit("no reader for this carrier format");
            }
            Err(Error::PatchFailed("no reader for this carrier format".to_owned()))
        },
    }
}

/// Ends one patch: where its download, checks, merge and GRF save succeeded the
/// patch joins the applied set; after any failure the set stays as it was.
pub fn finish_patch(applied: &mut AppliedSet, name: &str, outcome: Result<(), Error>) -> (r: Result<
    (),
    Error,
>)
    requires
        old(applied).wf(),
    ensures
        final(applied).wf(),
        r == outcome,
        r is Ok ==> final(applied)@ == old(applied)@.insert(name@),
        r is Err ==> final(applied)@ == old(applied)@,
{
    if outcome.is_ok() {
        applied.insert(name);
    }
    outcome
}

/// After a patch ends, its name is in the applied set if it succeeded, and not
/// in it if it failed and was not applied before.
pub proof fn lemma_applied_iff_ok(before: Set<Seq<char>>, after: Set<Seq<char>>, name: Seq<char>, ok: bool)
    requires
        ok ==> after == before.insert(name),
        !ok ==> after == before,
        !before.contains(name),
    ensures
        after.contains(name) <==> ok,
{
}

/// Whether a manual patch may be applied: only where the configuration allows it.
pub fn manual_patch_gate(allow_manual_patch: bool) -> (r: Result<(), Error>)
    ensures
        r is Ok <==> allow_manual_patch,
        !allow_manual_patch ==> (r matches Err(Error::PatchFailed(m)) && m@ == "Manual patching is disabled"@),
{
    if allow_manual_patch {
        Ok(())
    } else {
        proof {
            reveal_strlit("Manual patching is disabled");
        }
        Err(Error::PatchFailed("Manual patching is disabled".to_owned()))
    }
}

} // verus!
