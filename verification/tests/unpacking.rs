use mangix::tools::{
    seven_zip_args, seven_zip_candidates, seven_zip_failure, spawn_failure, unrar_args,
    unrar_failure, unrar_programs,
};

#[test]
fn a_seven_zip_without_rar_gets_a_hint() {
    let stderr = b"ERROR: x.rar\nUnsupported Method : 01.jpg\n";
    assert_eq!(
        seven_zip_failure("7z", stderr),
        "7z (this 7-Zip has no RAR codec - try p7zip-rar, or the 7zz build)"
    );
}

#[test]
fn other_seven_zip_failures_name_the_program() {
    assert_eq!(seven_zip_failure("7zz", b"ERROR: Can not open the file\n"), "7zz");
    assert_eq!(seven_zip_failure("7zz", b""), "7zz");
    assert_eq!(seven_zip_failure("7zz", b"Unsupported Method\nlater line"), "7zz");
}

#[test]
fn unrar_failures_give_the_last_line() {
    assert_eq!(unrar_failure("unrar", b"x\n  Cannot open x.rar  \r\n"), "unrar (Cannot open x.rar)");
    assert_eq!(unrar_failure("unrar", b""), "unrar (failed)");
    assert_eq!(unrar_failure("unrar", b"\nCannot open x.rar\n  "), "unrar ()");
    assert_eq!(unrar_failure("unrar-free", b"bad \xff byte"), "unrar-free (bad \u{fffd} byte)");
}

#[test]
fn programs_that_would_not_start() {
    assert_eq!(spawn_failure("7zz", "No such file"), "7zz (No such file)");
}

#[test]
fn candidates_come_best_first() {
    assert_eq!(seven_zip_candidates(&vec![]), vec!["7zz", "7zzs", "7z", "7za"]);
    let got = seven_zip_candidates(&vec!["/pf".to_string(), "/pf86".to_string()]);
    assert_eq!(
        got,
        vec![
            "7zz",
            "7zzs",
            "7z",
            "7za",
            "/pf/7-Zip/7z.exe",
            "/pf/7-Zip-Zstandard/7z.exe",
            "/pf/NanaZip/7z.exe",
            "/pf86/7-Zip/7z.exe",
            "/pf86/7-Zip-Zstandard/7z.exe",
            "/pf86/NanaZip/7z.exe",
        ]
    );
    assert_eq!(unrar_programs(), vec!["unrar", "unrar-free"]);
}

#[test]
fn arguments() {
    assert_eq!(
        seven_zip_args("/a.cbr", "/tmp/s"),
        vec!["x", "-y", "-bso0", "-bsp0", "-o/tmp/s", "/a.cbr"]
    );
    let args = unrar_args("/a.cbr", "/tmp/s");
    assert_eq!(args[..4], ["x", "-o+", "-idq", "/a.cbr"]);
    assert_eq!(args[4], format!("/tmp/s{}", std::path::MAIN_SEPARATOR));
}
