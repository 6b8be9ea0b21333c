use ffs::error::Error;
use ffs::os::Os;

#[test]
fn os_names() {
    assert_eq!(Os::from_str("linux").unwrap(), Os::Linux);
    assert_eq!(Os::from_str("linux_os").unwrap(), Os::Linux);
    assert_eq!(Os::from_str("linuxos").unwrap(), Os::Linux);
    assert_eq!(Os::from_str("mac").unwrap(), Os::Mac);
    assert_eq!(Os::from_str("macos").unwrap(), Os::Mac);
    assert_eq!(Os::from_str("mac_os").unwrap(), Os::Mac);
    assert_eq!(Os::from_str("windows").unwrap(), Os::Windows);
    assert_eq!(Os::from_str("windows_os").unwrap(), Os::Windows);
}

#[test]
fn unknown_os_names() {
    for name in ["", "os", "_os", "Linux", "linux_", "linux_os_os", "bsd", "macosos"] {
        assert!(
            matches!(Os::from_str(name), Err(Error::InvalidFormat)),
            "{name:?} was taken for a platform"
        );
    }
}
