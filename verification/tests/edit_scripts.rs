use sbvc_lib::diff::diff;
use sbvc_lib::Deletion;
use sbvc_lib::Difference;
use sbvc_lib::FormatField;
use sbvc_lib::Insertion;
use sbvc_lib::Sbvc;
use sbvc_lib::SbvcError;

fn assert_round_trip(old: &[u8], new: &[u8]) {
    let script = diff(new, old);
    assert_eq!(script.patched(old).as_slice(), new);
}

#[test]
fn diff_patch_round_trip() {
    assert_round_trip(b"", b"");
    assert_round_trip(b"", b"abc");
    assert_round_trip(b"abc", b"");
    assert_round_trip(b"abc", b"abc");
    assert_round_trip(b"BANANA", b"ATANA");
    assert_round_trip(b"ATANA", b"BANANA");
    assert_round_trip(b"012389", b"2345");
    assert_round_trip(
        b"SOME DATA TO PUT INTO FILE",
        b"SOME OTHER DATA TO REPLACE WHAT WAS BEFORE",
    );
}

#[test]
fn diff_patch_round_trip_large() {
    // large enough that the chunk size rises above one byte
    let mut old = vec![b'a'; 2000];
    old.extend(vec![b'b'; 2000]);
    let mut new = vec![b'a'; 2000];
    new.extend_from_slice(b"XYZ");
    new.extend(vec![b'b'; 2500]);
    assert_round_trip(&old, &new);
    assert_round_trip(&new, &old);
    assert_round_trip(&old, b"tiny");
    assert_round_trip(b"tiny", &new);
}

#[test]
fn diff_reports_minimal_scripts() {
    // the classic example: BANANA -> ATANA drops B and the first N and
    // splices T before the base position of the kept A at index 3
    let d = diff(b"ATANA", b"BANANA");
    assert_eq!(
        d.deletions,
        vec![
            Deletion { start: 0, end: 1 },
            Deletion { start: 2, end: 3 }
        ]
    );
    assert_eq!(d.insertions.len(), 1);
    assert_eq!(d.insertions[0].start, 3);
    assert_eq!(d.insertions[0].data, b"T");

    let d = diff(b"2345", b"012389");
    assert_eq!(
        d.deletions,
        vec![
            Deletion { start: 0, end: 2 },
            Deletion { start: 4, end: 6 }
        ]
    );
    assert_eq!(d.insertions.len(), 1);
    assert_eq!(d.insertions[0].start, 6);
    assert_eq!(d.insertions[0].data, b"45");
}

#[test]
fn diff_of_equal_buffers_is_empty() {
    let script = diff(b"same bytes", b"same bytes");
    assert!(script.deletions.is_empty());
    assert!(script.insertions.is_empty());
}

#[test]
fn patch_applies_one_pass() {
    // deletions and insertions are both anchored in base coordinates
    let script = Difference {
        deletions: vec![Deletion { start: 1, end: 3 }],
        insertions: vec![Insertion { start: 3, data: b"XY".to_vec() }],
    };
    assert_eq!(script.patched(b"ABCDE").as_slice(), b"AXYDE");

    // an insertion anchored at a deleted position lands before the gap
    let script = Difference {
        deletions: vec![Deletion { start: 0, end: 1 }],
        insertions: vec![Insertion { start: 0, data: b"z".to_vec() }],
    };
    assert_eq!(script.patched(b"AB").as_slice(), b"zB");

    // an insertion anchored past the end is appended
    let script = Difference {
        deletions: vec![],
        insertions: vec![Insertion { start: 2, data: b"Z".to_vec() }],
    };
    assert_eq!(script.patched(b"AB").as_slice(), b"ABZ");

    let script = Difference::empty();
    assert_eq!(script.patched(b"AB").as_slice(), b"AB");
}

#[test]
fn open_reports_missing_fields() {
    let path = b"t.nelf".to_vec();
    assert!(matches!(
        Sbvc::open(path.clone(), b""),
        Err(SbvcError::InvalidFormat(FormatField::FileName))
    ));
    assert!(matches!(
        Sbvc::open(path.clone(), b"no delimiters here"),
        Err(SbvcError::InvalidFormat(FormatField::FileName))
    ));
    assert!(matches!(
        Sbvc::open(path.clone(), b"|f|\n"),
        Err(SbvcError::InvalidFormat(FormatField::CurrentId))
    ));
    assert!(matches!(
        Sbvc::open(path.clone(), b"|f|\n|0|\n"),
        Err(SbvcError::InvalidFormat(FormatField::NextId))
    ));
    assert!(matches!(
        Sbvc::open(path.clone(), b"|f|\n|0|\n|1|\n"),
        Err(SbvcError::InvalidFormat(FormatField::VersionList))
    ));
}

#[test]
fn open_reports_bad_numbers() {
    let path = b"t.nelf".to_vec();
    assert!(matches!(
        Sbvc::open(path.clone(), b"|f|\n|x|\n"),
        Err(SbvcError::Parse(FormatField::CurrentId))
    ));
    // one past the largest 32-bit identifier
    assert!(matches!(
        Sbvc::open(path.clone(), b"|f|\n|4294967296|\n"),
        Err(SbvcError::Parse(FormatField::CurrentId))
    ));
    assert!(matches!(
        Sbvc::open(path.clone(), b"|f|\n|0|\n|99999999999999999999|\n"),
        Err(SbvcError::Parse(FormatField::NextId))
    ));
}

#[test]
fn open_rejects_an_empty_record_list() {
    assert!(matches!(
        Sbvc::open(b"t.nelf".to_vec(), b"|f|\n|0|\n|1|\n/\\\n"),
        Err(SbvcError::InvalidFormat(FormatField::TreeShape))
    ));
}

#[test]
fn open_reports_an_unknown_current_version() {
    let sbvc = Sbvc::new(b"f".to_vec(), b"t".to_vec(), 0);
    let mut stored = sbvc.to_bytes();
    // the current-identifier cell follows the four-byte tracked-file entry
    assert_eq!(&stored[..6], b"|t|\n|0");
    stored[5] = b'5';
    assert!(matches!(
        Sbvc::open(b"f".to_vec(), &stored),
        Err(SbvcError::VersionNotFound(5))
    ));
}

#[test]
fn store_round_trip_keeps_every_field() {
    let mut sbvc = Sbvc::new(b"tree.nelf".to_vec(), b"tracked".to_vec(), 11);
    sbvc.commit(b"first contents", 22);
    sbvc.rename(b"first");
    sbvc.commit(b"second contents", 33);

    let stored = sbvc.to_bytes();
    let back = Sbvc::open(b"tree.nelf".to_vec(), &stored).unwrap();
    assert_eq!(back.file().as_slice(), b"tracked");
    assert_eq!(back.next, sbvc.next);
    assert_eq!(back.current, sbvc.current);
    assert_eq!(back.versions().len(), 3);
    for (a, b) in sbvc.versions().iter().zip(back.versions().iter()) {
        assert_eq!(a.id(), b.id());
        assert_eq!(a.base(), b.base());
        assert_eq!(a.name(), b.name());
        assert_eq!(a.date(), b.date());
    }
    assert_eq!(back.data(1), b"first contents");
    assert_eq!(back.data(2), b"second contents");
}
