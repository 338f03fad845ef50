use saya::icons::{cache_path_for, icon_png, launch, open_command, sanitize, OpenOutcome};
use saya::paths::{
    cache_dir, data_dir, default_db_path, default_log_path, icon_cache_dir, log_dir,
};
use saya::CoreError;

const PNG_SIGNATURE: [u8; 8] = [0x89, 0x50, 0x4E, 0x47, 0x0D, 0x0A, 0x1A, 0x0A];

#[test]
fn cached_finder_icon_is_returned_as_it_is() {
    let mut png = PNG_SIGNATURE.to_vec();
    png.extend_from_slice(&[0u8; 120]);
    let (r, store) = icon_png(Some(png.clone()), || -> Result<Vec<u8>, CoreError> {
        panic!("a cached icon must not be extracted again")
    });
    let bytes = r.unwrap();
    assert_eq!(bytes, png);
    assert!(bytes.len() > 100);
    assert_eq!(&bytes[..8], &PNG_SIGNATURE);
    assert!(!store);
}

#[test]
fn missing_icon_is_extracted_and_stored() {
    let (r, store) = icon_png(None, || Ok(PNG_SIGNATURE.to_vec()));
    assert_eq!(r.unwrap(), PNG_SIGNATURE.to_vec());
    assert!(store);
    let (r, store) = icon_png(None, || Err(CoreError::Other("no TIFF".to_string())));
    match r {
        Err(CoreError::Other(m)) => assert_eq!(m, "no TIFF"),
        _ => panic!("the extraction's error must be returned"),
    }
    assert!(!store);
}

#[test]
fn sanitize_path_is_filesystem_safe() {
    let s = sanitize("/Applications/Visual Studio Code.app");
    assert_eq!(s, "_Applications_Visual_Studio_Code.app.png");
}

#[test]
fn sanitize_keeps_safe_characters_only() {
    let s = sanitize("a-Z.9 é/");
    assert_eq!(s, "a-Z.9___.png");
    assert_eq!(s.chars().count(), "a-Z.9 é/".chars().count() + 4);
}

#[test]
fn cache_path_joins_icon_dir_and_key() {
    assert_eq!(
        cache_path_for("/Users/me", "/Applications/Safari.app"),
        "/Users/me/Library/Caches/Saya/icons/_Applications_Safari.app.png"
    );
}

#[test]
fn launch_runs_open_with_the_path_only() {
    let (program, args) = open_command("/Applications/Safari.app");
    assert_eq!(program, "/usr/bin/open");
    assert_eq!(args, vec!["/Applications/Safari.app".to_string()]);
}

#[test]
fn launch_result_follows_how_open_ended() {
    assert!(launch(OpenOutcome::Exited { success: true, status: "exit status: 0".into() }).is_ok());
    match launch(OpenOutcome::Exited { success: false, status: "exit status: 1".into() }) {
        Err(CoreError::Other(m)) => assert_eq!(m, "/usr/bin/open exited with exit status: 1"),
        _ => panic!("a failed exit must be an error"),
    }
    match launch(OpenOutcome::SpawnFailed("No such file or directory".into())) {
        Err(CoreError::Other(m)) => assert_eq!(m, "spawn /usr/bin/open: No such file or directory"),
        _ => panic!("a spawn failure must be an error"),
    }
}

#[test]
fn well_known_locations() {
    assert_eq!(data_dir("/Users/me"), "/Users/me/Library/Application Support/Saya");
    assert_eq!(default_db_path("/Users/me"), "/Users/me/Library/Application Support/Saya/saya.db");
    assert_eq!(cache_dir("/Users/me"), "/Users/me/Library/Caches/Saya");
    assert_eq!(icon_cache_dir("/Users/me"), "/Users/me/Library/Caches/Saya/icons");
    assert_eq!(log_dir("/Users/me"), "/Users/me/Library/Logs/Saya");
    assert_eq!(default_log_path("/Users/me"), "/Users/me/Library/Logs/Saya/saya.log");
    // Without a home directory the locations are relative.
    assert_eq!(default_db_path(""), "Library/Application Support/Saya/saya.db");
}
