use std::path::Path;

use percent_encoding::{percent_encode, NON_ALPHANUMERIC};
use shell_integration::working_directory::{converted_path, local_drive_path, local_path, resolve, PathStyle};

/// A directory that exists; the access check of the application is left out here.
fn usable(path: &Vec<u8>) -> bool {
    std::str::from_utf8(path).map(|path| Path::new(path).is_dir()).unwrap_or(false)
}

fn path_bytes(path: &Path) -> Vec<u8> {
    path.to_str().unwrap().as_bytes().to_vec()
}

fn file_uri(path: &Path) -> String {
    let path = path.to_str().unwrap().as_bytes();
    format!("file:///{}", percent_encode(&path[1..], NON_ALPHANUMERIC))
}

#[test]
fn local_hosts_and_encoding() {
    for host in ["", "localhost", "LOCALHOST", "workstation", "WORKSTATION"] {
        let (uri_path, expected) = ("/tmp/a%20b/%C5%BC;%23%3F%25", "/tmp/a b/ż;#?%");

        let uri = format!("FILE://{host}{uri_path}");
        assert_eq!(local_path(&uri, b"workstation"), Some(expected.as_bytes().to_vec()));
    }
}

#[test]
fn invalid_or_remote_uris() {
    for uri in [
        "",
        "file:/tmp",
        "https://localhost/tmp",
        "file://localhost",
        "file://remote/tmp",
        "file://workstation.example/tmp",
        "file://user@localhost/tmp",
        "file://localhost:22/tmp",
        "file://127.0.0.1/tmp",
        "file://[::1]/tmp",
        "file:///tmp?query",
        "file:///tmp#fragment",
        "file:///tmp/%",
        "file:///tmp/%2",
        "file:///tmp/%GG",
        "file:///tmp/%00",
        "file:///tmp/\0",
        "file:///tmp/\n",
        "file:///tmp/\\foo",
        "file:////server/share",
        "file:///%2Fserver/share",
    ] {
        assert_eq!(local_path(uri, b"workstation"), None, "{uri:?}");
    }
}

#[test]
fn non_utf8_path() {
    assert_eq!(local_path("file:///tmp/%FF", b"workstation"), Some(b"/tmp/\xff".to_vec()));
}

#[test]
fn directory_precedence_and_fallback() {
    let directory = tempfile::tempdir().unwrap();
    let uri = file_uri(directory.path());
    for at_prompt in [None, Some(true)] {
        assert_eq!(
            resolve(Some(&uri), at_prompt, PathStyle::Unix, b"workstation", usable, || -> Option<Vec<u8>> {
                panic!("OSC 7 should take precedence")
            }),
            Some(path_bytes(directory.path())),
        );
    }

    let file = tempfile::NamedTempFile::new_in(directory.path()).unwrap();
    let file_uri = file_uri(file.path());
    assert_eq!(resolve(Some(&file_uri), None, PathStyle::Unix, b"workstation", usable, || None), None);
    drop(file);
    directory.close().unwrap();

    for uri in [None, Some(""), Some("file://remote/tmp"), Some(&uri), Some(&file_uri)] {
        for at_prompt in [None, Some(true), Some(false)] {
            let fallback = b"fallback".to_vec();
            assert_eq!(
                resolve(uri, at_prompt, PathStyle::Unix, b"workstation", usable, || Some(fallback.clone())),
                Some(fallback)
            );
            assert_eq!(resolve(uri, at_prompt, PathStyle::Unix, b"workstation", usable, || None), None);
        }
    }
}

#[test]
fn running_command_prefers_process_inspection() {
    let directory = tempfile::tempdir().unwrap();
    let uri = file_uri(directory.path());
    let fallback = b"fallback".to_vec();

    assert_eq!(resolve(Some(&uri), Some(false), PathStyle::Unix, b"workstation", usable, || Some(fallback.clone())), Some(fallback));
    assert_eq!(
        resolve(Some(&uri), Some(false), PathStyle::Unix, b"workstation", usable, || None),
        Some(path_bytes(directory.path()))
    );
}

#[test]
fn rejected_directory_falls_back() {
    let directory = tempfile::tempdir().unwrap();
    let uri = file_uri(directory.path());
    let fallback = b"fallback".to_vec();
    let refuse = |_: &Vec<u8>| false;

    assert_eq!(resolve(Some(&uri), None, PathStyle::Unix, b"workstation", refuse, || Some(fallback.clone())), Some(fallback));
    assert_eq!(resolve(Some(&uri), Some(true), PathStyle::Unix, b"workstation", refuse, || None), None);
}

#[test]
fn local_path_decodes_escapes() {
    assert_eq!(local_path("file:///%41%62c", b"workstation"), Some(b"/Abc".to_vec()));
    assert_eq!(local_path("file:///a%2fb", b"workstation"), Some(b"/a/b".to_vec()));
    assert_eq!(local_path("file:///", b"workstation"), Some(b"/".to_vec()));
}

#[test]
fn local_path_without_host_on_any_machine() {
    for hostname in [&b""[..], b"workstation", b"other"] {
        assert_eq!(local_path("file:///tmp", hostname), Some(b"/tmp".to_vec()));
        assert_eq!(local_path("file://LocalHost/tmp", hostname), Some(b"/tmp".to_vec()));
    }
    assert_eq!(local_path("file://workstation/tmp", b"other"), None);
    assert_eq!(local_path("file://workstation/tmp", b""), None);
}

#[test]
fn local_path_is_absolute() {
    for uri in ["file:///tmp", "file:///a%20b", "file:///%2E", "file:///x/%2F/y"] {
        let path = local_path(uri, b"workstation").unwrap();
        assert_eq!(path[0], b'/');
        assert!(!path.starts_with(b"//"));
        assert!(!path.contains(&0));
    }
}

#[test]
fn scheme_without_separator_or_other_case() {
    assert_eq!(local_path("FiLe:///tmp", b"workstation"), Some(b"/tmp".to_vec()));
    assert_eq!(local_path("files:///tmp", b"workstation"), None);
    assert_eq!(local_path("fil:///tmp", b"workstation"), None);
    assert_eq!(local_path("file:///tmp://x", b"workstation"), Some(b"/tmp://x".to_vec()));
}

#[test]
fn reported_path_with_space() {
    assert_eq!(
        local_path("file:///tmp/project%20files", b"workstation"),
        Some(b"/tmp/project files".to_vec())
    );
}

#[test]
fn windows_requires_absolute_drive_path() {
    for uri in
        ["file:///tmp", "file:///C:relative", "file:///C:/%FF", "file:///%5C%5Cserver/share"]
    {
        assert_eq!(local_drive_path(uri, b"workstation"), None);
    }
    assert_eq!(local_drive_path("file:///C:/", b"workstation"), Some(b"C:/".to_vec()));
}

#[test]
fn windows_drive_paths_decoded() {
    assert_eq!(
        local_drive_path("file://WORKSTATION/d:/a%20b/%C5%BC", b"workstation"),
        Some("d:/a b/ż".as_bytes().to_vec())
    );
    assert_eq!(local_drive_path("file://remote/C:/", b"workstation"), None);
    assert_eq!(local_drive_path("file:////C:/", b"workstation"), None);
    assert_eq!(local_drive_path("file:///1:/", b"workstation"), None);
    assert_eq!(
        converted_path("file:///C:/x", b"workstation", PathStyle::Windows),
        Some(b"C:/x".to_vec())
    );
    assert_eq!(
        converted_path("file:///C:/x", b"workstation", PathStyle::Unix),
        Some(b"/C:/x".to_vec())
    );
}

#[test]
fn local_path_inverts_percent_encoding() {
    for path in [&b"/"[..], b"/tmp/a b", b"/x/\xff\x01;#?%", b"/a/%41/b"] {
        let uri = format!("file:///{}", percent_encode(&path[1..], NON_ALPHANUMERIC));
        for hostname in [&b""[..], b"workstation"] {
            assert_eq!(local_path(&uri, hostname), Some(path.to_vec()));
        }
    }
}

#[test]
fn resolve_takes_report_naming_this_machine() {
    let directory = tempfile::tempdir().unwrap();
    let path = directory.path().to_str().unwrap();
    let uri = format!("file://workstation{}", path);
    let fallback = b"fallback".to_vec();
    assert_eq!(
        resolve(Some(&uri), Some(true), PathStyle::Unix, b"WorkStation", usable, || None),
        Some(path.as_bytes().to_vec())
    );
    assert_eq!(
        resolve(Some(&uri), None, PathStyle::Unix, b"other", usable, || Some(fallback.clone())),
        Some(fallback)
    );
}

#[test]
fn resolve_with_windows_paths() {
    let accept = |_: &Vec<u8>| true;
    assert_eq!(
        resolve(Some("file:///C:/Users"), None, PathStyle::Windows, b"workstation", accept, || None),
        Some(b"C:/Users".to_vec())
    );
    assert_eq!(
        resolve(Some("file:///tmp"), None, PathStyle::Windows, b"workstation", accept, || None),
        None
    );
}
