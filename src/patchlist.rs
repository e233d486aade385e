//! The patch list served by the mirrors, the set of applied patches, and what
//! is still pending.
use crate::text::{
    join_lines, join_with_newlines, lines, lines_of, parse_u64, trim, trimmed, u64_value, words,
    words_of,
};
use vstd::prelude::*;
use vstd::string::StrSliceExecFns;

verus! {

/// A patch named by the patch list.
#[derive(Debug, Clone, PartialEq, Eq)]
pub struct PatchInfo {
    pub filename: String,
    pub checksum: Option<String>,
    pub size: Option<u64>,
}

/// What a `PatchInfo` holds.
pub struct PatchEntry {
    pub filename: Seq<char>,
    pub checksum: Option<Seq<char>>,
    pub size: Option<u64>,
}

impl View for PatchInfo {
    type V = PatchEntry;

    open spec fn view(&self) -> PatchEntry {
        PatchEntry {
            filename: self.filename@,
            checksum: match self.checksum {
                Some(c) => Some(c@),
                None => None,
            },
            size: self.size,
        }
    }
}

impl PatchInfo {
    /// A copy with the same fields.
    pub fn copy(&self) -> (r: PatchInfo)
        ensures
            r@ == self@,
    {
        let checksum = match &self.checksum {
            Some(c) => Some(c.clone()),
            None => None,
        };
        PatchInfo { filename: self.filename.clone(), checksum, size: self.size }
    }
}

pub open spec fn infos_view(v: Seq<PatchInfo>) -> Seq<PatchEntry> {
    v.map_values(|p: PatchInfo| p@)
}

pub open spec fn strings_view(v: Seq<String>) -> Seq<Seq<char>> {
    v.map_values(|s: String| s@)
}

/// The patch that a line with these words names: none for a blank line or a
/// comment (first word starting with `#`). The first word is the filename, the
/// second the checksum, the third the size where it is a `u64`.
pub open spec fn patch_of_words(w: Seq<Seq<char>>) -> Option<PatchEntry> {
    if w.len() == 0 || (w[0].len() > 0 && w[0][0] == '#') {
        None
    } else {
        Some(
            PatchEntry {
                filename: w[0],
                checksum: if w.len() > 1 { Some(w[1]) } else { None },
                size: if w.len() > 2 { u64_value(w[2]) } else { None },
            },
        )
    }
}

/// The patches that these lines name, in order.
pub open spec fn patches_of_lines(lines: Seq<Seq<char>>) -> Seq<PatchEntry>
    decreases lines.len(),
{
    if lines.len() == 0 {
        seq![]
    } else {
        let rest = patches_of_lines(lines.drop_last());
        match patch_of_words(words_of(lines.last())) {
            Some(p) => rest.push(p),
            None => rest,
        }
    }
}

/// The patch named by a line split into `words`.
pub fn patch_from_words(words: &Vec<String>) -> (r: Option<PatchInfo>)
    ensures
        match r {
            Some(p) => patch_of_words(strings_view(words@)) == Some(p@),
            None => patch_of_words(strings_view(words@)) is None,
        },
{
    let ghost w = strings_view(words@);
    if words.len() == 0 {
        return None;
    }
    let first = words[0].as_str();
    assert(first@ == w[0]);
    if !first.is_empty() && first.get_char(0) == '#' {
        return None;
    }
    let checksum = if words.len() > 1 {
        Some(words[1].clone())
    } else {
        None
    };
    let size = if words.len() > 2 {
        parse_u64(words[2].as_str())
    } else {
        None
    };
    let p = PatchInfo { filename: words[0].clone(), checksum, size };
    assert(p@ == patch_of_words(w)->Some_0);
    Some(p)
}

/// Parses the patch list: one patch per line, `<filename> [<checksum>] [<size>]`;
/// blank lines and lines starting with `#` are skipped. Order is kept.
pub fn parse_patch_list(content: &str) -> (r: Vec<PatchInfo>)
    ensures
        infos_view(r@) == patches_of_lines(lines_of(content@)),
{
    let ls = lines(content);
    let ghost lv = strings_view(ls@);
    let mut out: Vec<PatchInfo> = Vec::new();
    let mut i: usize = 0;
    while i < ls.len()
        invariant
            i <= ls@.len(),
            lv == strings_view(ls@),
            lv == lines_of(content@),
            infos_view(out@) == patches_of_lines(lv.subrange(0, i as int)),
        decreases ls@.len() - i,
    {
        let ws = words(ls[i].as_str());
        let ghost before = out@;
        assert(lv.subrange(0, i + 1).drop_last() =~= lv.subrange(0, i as int));
        assert(lv.subrange(0, i + 1).last() == ls@[i as int]@);
        assert(strings_view(ws@) == words_of(ls@[i as int]@));
        match patch_from_words(&ws) {
            Some(p) => {
                out.push(p);
                assert(infos_view(out@) =~= infos_view(before).push(p@));
            },
            None => {},
        }
        i = i + 1;
    }
    assert(lv.subrange(0, i as int) =~= lv);
    out
}

/// The names of applied patches: the lines of the cache file, trimmed, without
/// empty ones.
pub open spec fn applied_names(lines: Seq<Seq<char>>) -> Set<Seq<char>>
    decreases lines.len(),
{
    if lines.len() == 0 {
        Set::empty()
    } else {
        let rest = applied_names(lines.drop_last());
        let t = trimmed(lines.last());
        if t.len() == 0 {
            rest
        } else {
            rest.insert(t)
        }
    }
}

/// The set of patches known to be fully applied, each name held once.
pub struct AppliedSet {
    names: Vec<String>,
}

impl View for AppliedSet {
    type V = Set<Seq<char>>;

    closed spec fn view(&self) -> Set<Seq<char>> {
        strings_view(self.names@).to_set()
    }
}

impl AppliedSet {
    /// Names held once each.
    pub closed spec fn wf(&self) -> bool {
        strings_view(self.names@).no_duplicates()
    }

    /// The names in the order in which they are stored.
    pub closed spec fn names(&self) -> Seq<Seq<char>> {
        strings_view(self.names@)
    }

    /// No patch applied.
    pub fn new() -> (r: AppliedSet)
        ensures
            r.wf(),
            r@ == Set::<Seq<char>>::empty(),
    {
        let r = AppliedSet { names: Vec::new() };
        assert(strings_view(r.names@) =~= Seq::<Seq<char>>::empty());
        assert(r@ =~= Set::<Seq<char>>::empty());
        r
    }

    /// Whether `name` is in the set.
    pub fn contains(&self, name: &str) -> (r: bool)
        ensures
            r == self@.contains(name@),
    {
        let owned = name.to_owned();
        let mut i: usize = 0;
        while i < self.names.len()
            invariant
                i <= self.names@.len(),
                owned@ == name@,
                forall|j: int| 0 <= j < i ==> self.names@[j]@ != name@,
            decreases self.names@.len() - i,
        {
            if self.names[i] == owned {
                assert(strings_view(self.names@)[i as int] == name@);
                return true;
            }
            i = i + 1;
        }
        assert(!strings_view(self.names@).contains(name@));
        false
    }

    /// Adds `name`.
    pub fn insert(&mut self, name: &str)
        requires
            old(self).wf(),
        ensures
            final(self).wf(),
            final(self)@ == old(self)@.insert(name@),
    {
        if self.contains(name) {
            assert(self@.insert(name@) =~= self@);
            return ;
        }
        let ghost before = strings_view(self.names@);
        self.names.push(name.to_owned());
        assert(strings_view(self.names@) =~= before.push(name@));
        assert(strings_view(self.names@).to_set() =~= before.to_set().insert(name@)) by {
            before.lemma_push_to_set_commute(name@);
        }
    }

    /// Reads the cache file's text: one name per line, trimmed, empty lines
    /// ignored.
    pub fn from_text(content: &str) -> (r: AppliedSet)
        ensures
            r.wf(),
            r@ == applied_names(lines_of(content@)),
    {
        let ls = lines(content);
        let ghost lv = strings_view(ls@);
        let mut set = AppliedSet::new();
        let mut i: usize = 0;
        while i < ls.len()
            invariant
                i <= ls@.len(),
                lv == strings_view(ls@),
                lv == lines_of(content@),
                set.wf(),
                set@ == applied_names(lv.subrange(0, i as int)),
            decreases ls@.len() - i,
        {
            let t = trim(ls[i].as_str());
            assert(lv.subrange(0, i + 1).drop_last() =~= lv.subrange(0, i as int));
            assert(lv.subrange(0, i + 1).last() == ls@[i as int]@);
            if !t.as_str().is_empty() {
                set.insert(t.as_str());
            }
            i = i + 1;
        }
        assert(lv.subrange(0, i as int) =~= lv);
        set
    }

    /// The cache file's text: the names joined by newlines.
    pub fn to_text(&self) -> (r: String)
        ensures
            r@ == join_lines(self.names()),
    {
        join_with_newlines(&self.names)
    }

    /// How many names the set holds.
    pub fn len(&self) -> (r: usize)
        requires
            self.wf(),
        ensures
            r == self@.len(),
    {
        proof {
            strings_view(self.names@).unique_seq_to_set();
        }
        self.names.len()
    }
}

/// The patches of `all` that `applied` does not hold, in order.
pub open spec fn pending_of(all: Seq<PatchEntry>, applied: Set<Seq<char>>) -> Seq<PatchEntry> {
    all.filter(|p: PatchEntry| !applied.contains(p.filename))
}

/// The pending patches are exactly the listed ones that are not applied, in list
/// order: each pending patch is listed and not applied, each listed patch that is
/// not applied is pending, and an empty list leaves nothing pending.
pub proof fn lemma_pending_exact(all: Seq<PatchEntry>, applied: Set<Seq<char>>)
    ensures
        forall|i: int|
            0 <= i < pending_of(all, applied).len() ==> all.contains(#[trigger] pending_of(all, applied)[i])
                && !applied.contains(pending_of(all, applied)[i].filename),
        forall|i: int|
            0 <= i < all.len() && !applied.contains(#[trigger] all[i].filename) ==> pending_of(all, applied).contains(all[i]),
        all.len() == 0 ==> pending_of(all, applied).len() == 0,
{
    let pred = |p: PatchEntry| !applied.contains(p.filename);
    all.filter_lemma(pred);
    assert forall|i: int| 0 <= i < pending_of(all, applied).len() implies all.contains(#[trigger] pending_of(all, applied)[i]) by {
        all.lemma_filter_contains_rev(pred, pending_of(all, applied)[i]);
    }
}

/// The patches of the list not yet applied, in list order.
pub fn pending_patches(all: &Vec<PatchInfo>, applied: &AppliedSet) -> (r: Vec<PatchInfo>)
    ensures
        infos_view(r@) == pending_of(infos_view(all@), applied@),
{
    let ghost av = infos_view(all@);
    let mut out: Vec<PatchInfo> = Vec::new();
    let mut i: usize = 0;
    while i < all.len()
        invariant
            i <= all@.len(),
            av == infos_view(all@),
            infos_view(out@) == pending_of(av.subrange(0, i as int), applied@),
        decreases all@.len() - i,
    {
        let p = &all[i];
        let ghost pred = |q: PatchEntry| !applied@.contains(q.filename);
        assert(av.subrange(0, i + 1).drop_last() =~= av.subrange(0, i as int));
        assert(av.subrange(0, i + 1).last() == p@);
        assert(pending_of(av.subrange(0, i + 1), applied@) == av.subrange(0, i + 1).filter(pred));
        assert(pending_of(av.subrange(0, i as int), applied@) == av.subrange(0, i as int).filter(pred));
        assert(av.subrange(0, i + 1) =~= av.subrange(0, i as int).push(p@));
        proof {
            av.subrange(0, i as int).lemma_filter_push(p@, pred);
        }
        if !applied.contains(p.filename.as_str()) {
            let ghost before = out@;
            out.push(p.copy());
            assert(infos_view(out@) =~= infos_view(before).push(p@));
        }
        i = i + 1;
    }
    assert(av.subrange(0, i as int) =~= av);
    out
}

} // verus!
