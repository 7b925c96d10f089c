use hoydedata::mapfolder::{is_zip_name, map_dir, set_map_dir, unmount_all_maps, MapFolder, ZipMount};

#[test]
fn map_dir_is_set_and_read() {
    let mut f = MapFolder::new();
    set_map_dir(&mut f, "/data/");
    assert_eq!(map_dir(&f), "/data/");
    f.set_dir("/other/");
    assert_eq!(f.get_map_dir(), "/other/");
}

#[test]
fn register_once() {
    let mut f = MapFolder::new();
    assert!(!f.is_mounted("a.zip"));
    f.register("a.zip");
    f.register("a.zip");
    f.register("b.zip");
    assert!(f.is_mounted("a.zip"));
    assert_eq!(f.mounts, vec![String::from("a.zip"), String::from("b.zip")]);
}

#[test]
fn unmount_all_lists_mount_points() {
    let mut f = MapFolder::new();
    set_map_dir(&mut f, "/data/");
    f.register("a.zip");
    f.register("b.zip");
    assert_eq!(unmount_all_maps(&mut f), vec![String::from("/data/a.zip.dir"), String::from("/data/b.zip.dir")]);
    assert!(!f.is_mounted("a.zip"));
    assert_eq!(f.unmount_all(), Vec::<String>::new());
}

#[test]
fn zip_mount_first_time_only() {
    let mut f = MapFolder::new();
    f.set_dir("/data/");
    let m = ZipMount::new(&mut f, "6700.zip");
    assert!(m.fresh);
    assert_eq!(m.directory, "6700.zip.dir/");
    assert_eq!(m.archive, "/data/6700.zip");
    assert_eq!(m.mount_point, "/data/6700.zip.dir");
    let again = ZipMount::new(&mut f, "6700.zip");
    assert!(!again.fresh);
    assert!(f.is_mounted("6700.zip"));
}

#[test]
fn zip_names() {
    assert!(is_zip_name("a.zip"));
    assert!(!is_zip_name("a.tif"));
    assert!(!is_zip_name("zip"));
}
