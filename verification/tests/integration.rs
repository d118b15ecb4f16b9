use sbvc_lib::Sbvc;
use sbvc_lib::SbvcResult;

const DATA_1: &[u8] = b"SOME DATA TO PUT INTO FILE";
const DATA_2: &[u8] = b"SOME OTHER DATA TO REPLACE WHAT WAS BEFORE";

#[test]
fn create() -> SbvcResult<()> {
    const PATH: &[u8] = b"creation.nelf";
    const FILE: &[u8] = b"creation";

    let sbvc = Sbvc::new(PATH.to_vec(), FILE.to_vec(), 0);
    assert_eq!(sbvc.path().as_slice(), PATH);
    assert_eq!(sbvc.file().as_slice(), FILE);
    assert_eq!(sbvc.versions().len(), 1);
    assert_eq!(sbvc.current().id(), 0);
    assert_eq!(sbvc.current().base(), 0);
    assert_eq!(sbvc.current().name().as_slice(), b"init");
    Ok(())
}

#[test]
fn rollback() -> SbvcResult<()> {
    const PATH: &[u8] = b"rollback.nelf";
    const FILE: &[u8] = b"rollback";

    let mut sbvc = Sbvc::new(PATH.to_vec(), FILE.to_vec(), 0);
    assert!(sbvc.is_changed(DATA_1));
    sbvc.commit(DATA_1, 1);
    assert!(!sbvc.is_changed(DATA_1));
    sbvc.commit(DATA_2, 2);

    let stored = sbvc.to_bytes();
    let mut sbvc = Sbvc::open(PATH.to_vec(), &stored)?;
    sbvc.checkout(1)?;
    assert_eq!(sbvc.data(sbvc.current), DATA_1);
    sbvc.checkout(2)?;
    assert_eq!(sbvc.data(sbvc.current), DATA_2);

    Ok(())
}

#[test]
fn delete() -> SbvcResult<()> {
    const PATH: &[u8] = b"delete.nelf";
    const FILE: &[u8] = b"delete";

    let mut sbvc = Sbvc::new(PATH.to_vec(), FILE.to_vec(), 0);
    sbvc.commit(DATA_1, 1);
    sbvc.commit(DATA_2, 2);
    sbvc.commit(DATA_2, 3);
    sbvc.checkout(2)?;
    sbvc.delete();

    let stored = sbvc.to_bytes();
    let sbvc = Sbvc::open(PATH.to_vec(), &stored)?;
    assert_eq!(
        sbvc.versions().iter().map(|version| version.id()).collect::<Vec<_>>(),
        [0, 1]
    );

    Ok(())
}

#[test]
fn rename() -> SbvcResult<()> {
    const PATH: &[u8] = b"rename.nelf";
    const NAME: &[u8] = b"new name";

    let mut sbvc = Sbvc::new(PATH.to_vec(), b"rename".to_vec(), 0);
    sbvc.rename(NAME);

    let stored = sbvc.to_bytes();
    let sbvc = Sbvc::open(PATH.to_vec(), &stored)?;
    assert_eq!(sbvc.current().name().as_slice(), NAME);

    Ok(())
}

#[test]
fn basic_commit_read() {
    let mut sbvc = Sbvc::new(b"t.nelf".to_vec(), b"t".to_vec(), 0);
    sbvc.commit(DATA_1, 7);
    assert_eq!(sbvc.current().id(), 1);
    assert_eq!(sbvc.current().name().as_slice(), b"unnamed");
    assert_eq!(sbvc.current().date(), 7);
    assert_eq!(sbvc.data(sbvc.current), DATA_1);
}

#[test]
fn chained_commit() -> SbvcResult<()> {
    let mut sbvc = Sbvc::new(b"t.nelf".to_vec(), b"t".to_vec(), 0);
    sbvc.commit(DATA_1, 1);
    sbvc.commit(DATA_2, 2);
    assert_eq!(sbvc.data(1), DATA_1);
    assert_eq!(sbvc.data(2), DATA_2);

    let stored = sbvc.to_bytes();
    let sbvc = Sbvc::open(b"t.nelf".to_vec(), &stored)?;
    assert_eq!(sbvc.data(1), DATA_1);
    assert_eq!(sbvc.data(2), DATA_2);
    assert_eq!(sbvc.versions()[2].base(), 1);
    Ok(())
}

#[test]
fn cascading_delete() -> SbvcResult<()> {
    let mut sbvc = Sbvc::new(b"t.nelf".to_vec(), b"t".to_vec(), 0);
    sbvc.commit(b"A", 1);
    sbvc.commit(b"B", 2);
    sbvc.checkout(1)?;
    sbvc.delete();

    let stored = sbvc.to_bytes();
    let sbvc = Sbvc::open(b"t.nelf".to_vec(), &stored)?;
    assert_eq!(sbvc.versions().len(), 1);
    assert_eq!(sbvc.versions()[0].id(), 0);
    Ok(())
}

#[test]
fn rollback_restores_content() -> SbvcResult<()> {
    let mut sbvc = Sbvc::new(b"t.nelf".to_vec(), b"t".to_vec(), 0);
    sbvc.commit(b"X", 1);
    sbvc.commit(b"Y", 2);
    sbvc.checkout(1)?;
    assert_eq!(sbvc.data(sbvc.current), b"X");
    Ok(())
}

#[test]
fn delete_root_is_refused() {
    let mut sbvc = Sbvc::new(b"t.nelf".to_vec(), b"t".to_vec(), 0);
    sbvc.commit(b"A", 1);
    sbvc.checkout(0).unwrap();
    sbvc.delete();
    assert_eq!(sbvc.versions().len(), 2);
    assert_eq!(sbvc.current().id(), 0);
}

#[test]
fn identifiers_are_never_reused() -> SbvcResult<()> {
    let mut sbvc = Sbvc::new(b"t.nelf".to_vec(), b"t".to_vec(), 0);
    sbvc.commit(b"A", 1);
    sbvc.commit(b"B", 2);
    sbvc.delete();
    sbvc.commit(b"C", 3);
    assert_eq!(
        sbvc.versions().iter().map(|version| version.id()).collect::<Vec<_>>(),
        [0, 1, 3]
    );
    Ok(())
}

#[test]
fn deep_chains_survive_the_store() -> SbvcResult<()> {
    let mut sbvc = Sbvc::new(b"t.nelf".to_vec(), b"t".to_vec(), 0);
    let mut contents: Vec<Vec<u8>> = vec![Vec::new()];
    for i in 1..9u32 {
        let mut body = format!("revision {} of the tracked file, ", i).into_bytes();
        body.extend(contents[(i - 1) as usize].clone());
        sbvc.commit(&body, i as u64);
        contents.push(body);
    }
    let stored = sbvc.to_bytes();
    let mut sbvc = Sbvc::open(b"t.nelf".to_vec(), &stored)?;
    for i in 0..9u32 {
        sbvc.checkout(i)?;
        assert_eq!(sbvc.data(sbvc.current), contents[i as usize]);
    }
    Ok(())
}

#[test]
fn checkout_unknown_id_fails() {
    let mut sbvc = Sbvc::new(b"t.nelf".to_vec(), b"t".to_vec(), 0);
    let before = sbvc.current;
    assert_eq!(sbvc.checkout(9), Err(sbvc_lib::SbvcError::VersionNotFound(9)));
    assert_eq!(sbvc.current, before);
}

#[test]
fn is_changed_compares_against_current() {
    let mut sbvc = Sbvc::new(b"t.nelf".to_vec(), b"t".to_vec(), 0);
    assert!(!sbvc.is_changed(b""));
    assert!(sbvc.is_changed(b"x"));
    sbvc.commit(b"x", 1);
    assert!(!sbvc.is_changed(b"x"));
    assert!(sbvc.is_changed(b""));
}

#[test]
fn set_file_is_stored() -> SbvcResult<()> {
    let mut sbvc = Sbvc::new(b"t.nelf".to_vec(), b"old".to_vec(), 0);
    sbvc.set_file(b"new".to_vec());
    let stored = sbvc.to_bytes();
    let sbvc = Sbvc::open(b"t.nelf".to_vec(), &stored)?;
    assert_eq!(sbvc.file().as_slice(), b"new");
    Ok(())
}

#[test]
fn awkward_names_survive_the_store() -> SbvcResult<()> {
    let mut sbvc = Sbvc::new(b"t.nelf".to_vec(), b"t".to_vec(), 0);
    sbvc.rename(b"a|b/c\\d\ne");
    let stored = sbvc.to_bytes();
    let sbvc = Sbvc::open(b"t.nelf".to_vec(), &stored)?;
    assert_eq!(sbvc.current().name().as_slice(), b"a|b/c\\d\ne");

    let mut sbvc = Sbvc::new(b"t.nelf".to_vec(), b"t".to_vec(), 0);
    sbvc.rename(b"");
    let stored = sbvc.to_bytes();
    let sbvc = Sbvc::open(b"t.nelf".to_vec(), &stored)?;
    assert_eq!(sbvc.current().name().as_slice(), b"");
    Ok(())
}

#[test]
fn delimiter_heavy_content_survives_the_store() -> SbvcResult<()> {
    let mut sbvc = Sbvc::new(b"t.nelf".to_vec(), b"t".to_vec(), 0);
    let tricky: &[u8] = b"///\\\\\\|||\n\n||//\\";
    sbvc.commit(tricky, 1);
    let stored = sbvc.to_bytes();
    let sbvc = Sbvc::open(b"t.nelf".to_vec(), &stored)?;
    assert_eq!(sbvc.data(1), tricky);
    Ok(())
}
