use beam_patcher::grf::Grf;
use beam_patcher::mirror::{attempt_order, mirror_url, Failover, Mirror};
use beam_patcher::news::{news_items, NewsApiResponse, NewsItem};
use beam_patcher::patcher::{
    apply_beam_items, apply_entries, apply_patch_bytes, beam_entries, checksum_agrees, finish_patch,
    manual_patch_gate, patch_kind, patch_passes_checksum, thor_entries, verify_checksum, BeamItem,
    CarrierEntry, PatchKind,
};
use beam_patcher::patchlist::{parse_patch_list, patch_from_words, pending_patches, AppliedSet, PatchInfo};
use beam_patcher::rgz::Rgz;
use beam_patcher::thor::Thor;
use beam_patcher::Error;

fn mirror(name: &str, url: &str, priority: u32) -> Mirror {
    Mirror { name: name.to_string(), url: url.to_string(), priority }
}

fn info(name: &str) -> PatchInfo {
    PatchInfo { filename: name.to_string(), checksum: None, size: None }
}

#[test]
fn patch_list_parsing() {
    let list = "# header\nfoo.thor  a1b2c3...  1024\nbar.rgz\nbaz.beam  ffee 0\n";
    let patches = parse_patch_list(list);
    assert_eq!(
        patches,
        vec![
            PatchInfo { filename: "foo.thor".to_string(), checksum: Some("a1b2c3...".to_string()), size: Some(1024) },
            PatchInfo { filename: "bar.rgz".to_string(), checksum: None, size: None },
            PatchInfo { filename: "baz.beam".to_string(), checksum: Some("ffee".to_string()), size: Some(0) },
        ]
    );
}

#[test]
fn patch_list_bad_size_and_blank_lines() {
    let patches = parse_patch_list("\r\n   \n  a.gpf abc 12x\n\t# note\n+7 c +7\n");
    assert_eq!(
        patches,
        vec![
            PatchInfo { filename: "a.gpf".to_string(), checksum: Some("abc".to_string()), size: None },
            PatchInfo { filename: "+7".to_string(), checksum: Some("c".to_string()), size: Some(7) },
        ]
    );
    assert_eq!(parse_patch_list(""), vec![]);
}

#[test]
fn patch_from_single_word() {
    let p = patch_from_words(&vec!["only.rgz".to_string()]).unwrap();
    assert_eq!(p, info("only.rgz"));
    assert_eq!(patch_from_words(&vec![]), None);
    assert_eq!(patch_from_words(&vec!["#x".to_string(), "y".to_string()]), None);
}

#[test]
fn applied_set_text() {
    let mut set = AppliedSet::from_text("  a.thor \n\nb.rgz\r\n  \n");
    assert_eq!(set.len(), 2);
    assert!(set.contains("a.thor"));
    assert!(set.contains("b.rgz"));
    assert!(!set.contains(" a.thor "));
    set.insert("c.gpf");
    set.insert("c.gpf");
    assert_eq!(set.len(), 3);
    let again = AppliedSet::from_text(&set.to_text());
    assert_eq!(again.len(), 3);
    assert!(again.contains("c.gpf"));
    assert_eq!(AppliedSet::new().to_text(), "");
}

#[test]
fn pending_excludes_applied_in_order() {
    let all = vec![info("1.thor"), info("2.rgz"), info("3.thor"), info("4.rgz")];
    let applied = AppliedSet::from_text("3.thor\n1.thor\n");
    let pending = pending_patches(&all, &applied);
    assert_eq!(pending, vec![info("2.rgz"), info("4.rgz")]);
}

#[test]
fn empty_patch_list_has_nothing_pending() {
    let applied = AppliedSet::from_text("x\n");
    assert!(pending_patches(&parse_patch_list("# nothing\n"), &applied).is_empty());
}

#[test]
fn rerun_after_applying_all_is_empty() {
    let all = parse_patch_list("a.thor\nb.rgz\n");
    let mut applied = AppliedSet::new();
    for p in &all {
        finish_patch(&mut applied, &p.filename, Ok(())).unwrap();
    }
    let reloaded = AppliedSet::from_text(&applied.to_text());
    assert!(pending_patches(&all, &reloaded).is_empty());
}

#[test]
fn finish_patch_marks_only_on_success() {
    let mut applied = AppliedSet::new();
    let err = finish_patch(&mut applied, "bad.thor", Err(Error::PatchFailed("x".to_string())));
    assert_eq!(err, Err(Error::PatchFailed("x".to_string())));
    assert!(!applied.contains("bad.thor"));
    assert_eq!(finish_patch(&mut applied, "good.thor", Ok(())), Ok(()));
    assert!(applied.contains("good.thor"));
}

#[test]
fn mirror_failover_skips_empty_and_failed() {
    let mirrors = vec![mirror("A", "", 0), mirror("B", "http://b", 1), mirror("C", "http://c", 2)];
    let mut f = Failover::new(&mirrors);
    let mut tried = Vec::new();
    let mut got = None;
    while let Some(i) = f.next_mirror() {
        tried.push(i);
        if mirrors[i].name == "C" {
            got = Some(b"OK".to_vec());
            break;
        }
        f.record_failure(Error::DownloadFailed("HTTP error: 500".to_string()));
    }
    assert_eq!(tried, vec![1, 2]);
    assert_eq!(got, Some(b"OK".to_vec()));
}

#[test]
fn mirror_order_is_stable_by_priority() {
    let mirrors = vec![
        mirror("a", "u", 5),
        mirror("b", "u", 1),
        mirror("c", "", 0),
        mirror("d", "u", 5),
        mirror("e", "u", 1),
    ];
    assert_eq!(attempt_order(&mirrors), vec![1, 4, 0, 3]);
}

#[test]
fn failover_only_ith_succeeds() {
    let mirrors = vec![mirror("a", "u", 3), mirror("b", "u", 1), mirror("c", "u", 2)];
    let mut f = Failover::new(&mirrors);
    let mut tried = Vec::new();
    while let Some(i) = f.next_mirror() {
        tried.push(i);
        if i == 0 {
            break;
        }
        f.record_failure(Error::Io("refused".to_string()));
    }
    assert_eq!(tried, vec![1, 2, 0]);
}

#[test]
fn failover_errors() {
    let none = Failover::new(&vec![mirror("a", "", 0)]);
    assert_eq!(none.into_error(), Error::DownloadFailed("All mirrors failed".to_string()));
    let mut f = Failover::new(&vec![mirror("a", "u", 0), mirror("b", "v", 0)]);
    while let Some(i) = f.next_mirror() {
        f.record_failure(Error::Io(format!("fail {}", i)));
    }
    assert_eq!(f.into_error(), Error::Io("fail 1".to_string()));
}

#[test]
fn mirror_url_joins_with_slash() {
    assert_eq!(mirror_url("http://m/patch", "a.thor"), "http://m/patch/a.thor");
}

#[test]
fn checksum_verification() {
    let abc = "ba7816bf8f01cfea414140de5dae2223b00361a396177a9cb410ff61f20015ad";
    assert!(verify_checksum(true, b"abc", abc));
    assert!(!verify_checksum(true, b"abd", abc));
    assert!(verify_checksum(false, b"abd", abc));
    assert!(checksum_agrees(true, "ff", "ff"));
    assert!(!checksum_agrees(true, "ff", "FF"));
    assert!(checksum_agrees(false, "ff", "00"));
}

#[test]
fn patch_kind_by_extension() {
    assert_eq!(patch_kind("foo.THOR"), Some(PatchKind::Thor));
    assert_eq!(patch_kind("dir.x/bar.Rgz"), Some(PatchKind::Rgz));
    assert_eq!(patch_kind("a.b.beam"), Some(PatchKind::Beam));
    assert_eq!(patch_kind("x.gpf"), Some(PatchKind::Gpf));
    assert_eq!(patch_kind(".thor"), None);
    assert_eq!(patch_kind("thor"), None);
    assert_eq!(patch_kind("a.thor/b"), None);
    assert_eq!(patch_kind("a.zip"), None);
}

#[test]
fn beam_md5_failure_names_entry() {
    let items = vec![
        BeamItem { filename: "one.txt".to_string(), grf_path: None, verified: true, data: b"1".to_vec() },
        BeamItem { filename: "two.txt".to_string(), grf_path: None, verified: false, data: b"2".to_vec() },
    ];
    assert_eq!(
        beam_entries(&items),
        Err(Error::PatchFailed("MD5 verification failed for: two.txt".to_string()))
    );
}

#[test]
fn beam_entries_use_grf_path() {
    let items = vec![BeamItem {
        filename: "in.txt".to_string(),
        grf_path: Some("data\\out.txt".to_string()),
        verified: true,
        data: b"z".to_vec(),
    }];
    let es = beam_entries(&items).unwrap();
    assert_eq!(
        es,
        vec![CarrierEntry::AddFileMapped {
            source_path: "in.txt".to_string(),
            target_path: "data\\out.txt".to_string(),
            bytes: b"z".to_vec(),
        }]
    );
    let mut grf = Grf::create_new();
    apply_entries(&mut grf, &es).unwrap();
    assert_eq!(grf.read_file(b"data\\out.txt").unwrap(), b"z".to_vec());
}

#[test]
fn apply_rgz_patch_then_save() {
    let mut rgz = Rgz::new();
    rgz.add_directory("data");
    rgz.add_file("data\\x.txt", b"one");
    rgz.add_file("data\\x.txt", b"two");
    let bytes = rgz.to_bytes().unwrap();
    let mut grf = Grf::create_new();
    apply_patch_bytes(&mut grf, "p1.rgz", &bytes).unwrap();
    let opened = Grf::from_bytes(&grf.to_bytes().unwrap()).unwrap();
    assert_eq!(opened.read_file(b"data\\x.txt").unwrap(), b"two".to_vec());
    assert_eq!(opened.file_count(), 1);
}

#[test]
fn apply_thor_patch_remove_is_noop() {
    let mut thor = Thor::new();
    thor.add_file("a", b"A");
    thor.remove_file("a");
    let es = thor_entries(&thor);
    assert_eq!(es[1], CarrierEntry::RemoveFile { path: "a".to_string() });
    let mut grf = Grf::create_new();
    apply_patch_bytes(&mut grf, "p.thor", &thor.to_bytes().unwrap()).unwrap();
    assert_eq!(grf.read_file(b"a").unwrap(), b"A".to_vec());
}

#[test]
fn apply_unknown_or_broken_patch_leaves_grf() {
    let mut grf = Grf::create_new();
    grf.patch_file(b"keep", b"k").unwrap();
    assert_eq!(
        apply_patch_bytes(&mut grf, "p.zip", b""),
        Err(Error::PatchFailed("Unknown patch format".to_string()))
    );
    assert!(matches!(apply_patch_bytes(&mut grf, "p.rgz", b"junk"), Err(Error::Decompression(_))));
    assert_eq!(apply_patch_bytes(&mut grf, "p.thor", b"junk"), Err(Error::InvalidThorHeader));
    assert_eq!(
        apply_patch_bytes(&mut grf, "p.gpf", b""),
        Err(Error::PatchFailed("no reader for this carrier format".to_string()))
    );
    assert_eq!(grf.file_count(), 1);
    assert_eq!(grf.read_file(b"keep").unwrap(), b"k".to_vec());
}

#[test]
fn manual_patch_gate_follows_config() {
    assert_eq!(manual_patch_gate(true), Ok(()));
    assert_eq!(
        manual_patch_gate(false),
        Err(Error::PatchFailed("Manual patching is disabled".to_string()))
    );
}

#[test]
fn news_items_only_on_success() {
    let item = NewsItem {
        id: Some(1),
        title: "t".to_string(),
        content: None,
        author: None,
        category: "c".to_string(),
        image_url: None,
        created_at: None,
        updated_at: None,
        published: Some(1),
    };
    let ok = NewsApiResponse { success: true, data: vec![item.clone()] };
    assert_eq!(news_items(ok).len(), 1);
    let bad = NewsApiResponse { success: false, data: vec![item] };
    assert!(news_items(bad).is_empty());
}

#[test]
fn patch_without_checksum_skips_verification() {
    let bare = parse_patch_list("only.rgz\n");
    assert_eq!(bare[0].checksum, None);
    assert_eq!(bare[0].size, None);
    assert!(patch_passes_checksum(true, &bare[0], b"anything"));
    let listed = PatchInfo { filename: "p.rgz".to_string(), checksum: Some("00".to_string()), size: None };
    assert!(!patch_passes_checksum(true, &listed, b"anything"));
    assert!(patch_passes_checksum(false, &listed, b"anything"));
}

#[test]
fn beam_md5_failure_leaves_grf_and_applied_set() {
    let mut grf = Grf::create_new();
    grf.patch_file(b"old", b"o").unwrap();
    let before = grf.to_bytes().unwrap();
    let items = vec![
        BeamItem { filename: "name1".to_string(), grf_path: None, verified: true, data: b"1".to_vec() },
        BeamItem { filename: "name2".to_string(), grf_path: None, verified: false, data: b"2".to_vec() },
    ];
    let mut applied = AppliedSet::new();
    let outcome = apply_beam_items(&mut grf, &items);
    assert_eq!(outcome, Err(Error::PatchFailed("MD5 verification failed for: name2".to_string())));
    assert_eq!(grf.to_bytes().unwrap(), before);
    assert!(finish_patch(&mut applied, "p.beam", outcome).is_err());
    assert!(!applied.contains("p.beam"));
}

#[test]
fn beam_items_applied_in_order() {
    let mut grf = Grf::create_new();
    let items = vec![
        BeamItem { filename: "a".to_string(), grf_path: Some("data\\a".to_string()), verified: true, data: b"1".to_vec() },
        BeamItem { filename: "b".to_string(), grf_path: Some("data\\a".to_string()), verified: true, data: b"2".to_vec() },
    ];
    apply_beam_items(&mut grf, &items).unwrap();
    assert_eq!(grf.read_file(b"data\\a").unwrap(), b"2".to_vec());
    assert!(matches!(grf.read_file(b"a"), Err(Error::PatchFailed(_))));
}

#[test]
fn patch_list_size_bounds() {
    let patches = parse_patch_list(
        "a x 18446744073709551615\nb x 18446744073709551616\nc x +\nd x -1\ne x 007\n",
    );
    let sizes: Vec<Option<u64>> = patches.iter().map(|p| p.size).collect();
    assert_eq!(sizes, vec![Some(u64::MAX), None, None, None, Some(7)]);
}

#[test]
fn unicode_whitespace_splits_and_trims() {
    let patches = parse_patch_list("a.rgz\u{3000}abc\u{a0}12\n");
    assert_eq!(
        patches,
        vec![PatchInfo { filename: "a.rgz".to_string(), checksum: Some("abc".to_string()), size: Some(12) }]
    );
    let set = AppliedSet::from_text("\u{2003}x.thor\u{85}\n");
    assert!(set.contains("x.thor"));
}
