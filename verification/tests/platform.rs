use spacewise_core::path::FsPath;
use spacewise_core::platform::{LinuxAdapter, MacOSAdapter, UninstallEntry, WindowsAdapter};

fn p(s: &str) -> FsPath {
    let parts: Vec<String> = s.split('/').filter(|x| !x.is_empty()).map(|x| x.to_string()).collect();
    FsPath::new("/".to_string(), parts)
}

fn win(root: &str, rest: &[&str]) -> FsPath {
    FsPath::new(root.to_string(), rest.iter().map(|s| s.to_string()).collect())
}

/// Whether the Windows adapter protects the path written `root` + `rest`
/// joined with backslashes.
fn win_protected(root: &str, rest: &[&str], system_root: Option<&str>) -> bool {
    let text = format!("{}{}", root, rest.join("\\"));
    WindowsAdapter.is_protected_root(&win(root, rest), &text, system_root)
}

#[test]
fn linux_protects_proc_sys_and_boot() {
    let a = LinuxAdapter;
    assert!(a.is_protected_root(&p("/proc")));
    assert!(a.is_protected_root(&p("/proc/1/maps")));
    assert!(a.is_protected_root(&p("/sys/kernel")));
    assert!(a.is_protected_root(&p("/boot/vmlinuz")));
    assert!(!a.is_protected_root(&p("/home/u/.cache")));
    assert!(!a.is_protected_root(&p("/processes")));
    assert!(!a.is_protected_root(&p("/")));
}

#[test]
fn macos_protects_system_roots_component_wise() {
    let a = MacOSAdapter;
    assert!(a.is_protected_root(&p("/System/Library")));
    assert!(a.is_protected_root(&p("/private/var/db/x")));
    assert!(a.is_protected_root(&p("/usr/local/bin")));
    assert!(a.is_protected_root(&p("/Volumes/Preboot")));
    assert!(!a.is_protected_root(&p("/private/var/folders")));
    assert!(!a.is_protected_root(&p("/usrlocal")));
    assert!(!a.is_protected_root(&p("/Users/me/Library/Caches")));
}

#[test]
fn macos_lists_app_bundles_by_stem_sorted_case_insensitively() {
    let entries = vec![
        p("/Applications/zed.app"),
        p("/Applications/README.txt"),
        p("/Applications/Alfred 5.app"),
        p("/Applications/.app"),
        p("/Applications/Utilities"),
        p("/Applications/Blender.app"),
    ];
    let apps = MacOSAdapter.apps_from_bundles(&entries);
    let names: Vec<&str> = apps.iter().map(|a| a.name.as_str()).collect();
    assert_eq!(names, vec!["Alfred 5", "Blender", "zed"]);
    assert_eq!(apps[0].install_location.as_deref(), Some("/Applications/Alfred 5.app"));
    assert!(apps.iter().all(|a| a.publisher.is_none() && a.uninstall_command.is_none()));
}

#[test]
fn windows_protects_system_files_anywhere_and_the_windows_directory() {
    assert!(win_protected("D:\\", &["pagefile.sys"], None));
    assert!(win_protected("C:\\", &["HIBERFIL.SYS"], None));
    assert!(win_protected("E:\\", &["System Volume Information", "x"], None));
    assert!(win_protected("C:\\", &["$Recycle.Bin", "S-1-5"], None));
    assert!(win_protected("C:\\", &["Windows", "System32"], None));
    assert!(win_protected("C:\\", &["ProgramData", "Microsoft", "Windows", "Start Menu"], None));
    assert!(!win_protected("C:\\", &["Users", "me", "Downloads"], None));
    // The Windows directory comes from SystemRoot when it is set.
    assert!(win_protected("D:\\", &["WinNT", "Temp"], Some("D:\\WinNT")));
    assert!(!win_protected("C:\\", &["Windows", "Temp"], Some("D:\\WinNT")));
}

fn entry(name: Option<&str>, system: Option<u32>) -> UninstallEntry {
    UninstallEntry {
        system_component: system,
        display_name: name.map(|s| s.to_string()),
        publisher: Some("Pub".to_string()),
        install_location: Some("   ".to_string()),
        estimated_size_kb: Some(2),
        uninstall_string: Some("uninstall.exe".to_string()),
    }
}

#[test]
fn windows_lists_user_facing_apps_sorted_and_deduplicated() {
    let entries = vec![
        entry(Some("zoom"), None),
        entry(Some("Runtime"), Some(1)),
        entry(None, None),
        entry(Some("  "), None),
        entry(Some("Apple"), Some(0)),
        entry(Some("Zoom"), None),
        entry(Some("Zoom"), None),
    ];
    let apps = WindowsAdapter.apps_from_uninstall_entries(&entries);
    let names: Vec<&str> = apps.iter().map(|a| a.name.as_str()).collect();
    assert_eq!(names, vec!["Apple", "zoom", "Zoom"]);
    assert_eq!(apps[0].estimated_size_bytes, Some(2048));
    assert_eq!(apps[0].install_location, None);
    assert_eq!(apps[0].publisher.as_deref(), Some("Pub"));
}

#[test]
fn windows_compares_the_path_text_as_written() {
    // Forward slashes are not the Windows directory's text, but a paging
    // file is recognised by its name whatever the separators.
    let a = WindowsAdapter;
    let p = win("C:/", &["Windows", "System32"]);
    assert!(!a.is_protected_root(&p, "C:/Windows/System32", None));
    assert!(a.is_protected_root(&p, "C:\\Windows\\System32", None));
    let pf = win("C:/", &["pagefile.sys"]);
    assert!(a.is_protected_root(&pf, "C:/pagefile.sys", None));
}
