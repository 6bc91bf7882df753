use photorg::config::{Mode, OnConflict, Options};
use photorg::error::FatalError;
use photorg::safety::{absolute, check_space, overlap, plain, prepare, probe_path, Ask};
use photorg::sanitize::Platform;
use std::collections::BTreeSet;

fn opts(source: &str, dest: &str) -> Options {
    Options {
        source: source.into(),
        dest: dest.into(),
        ..Default::default()
    }
}

/// A disk in memory: its directories, and where its links lead.
struct Disk {
    dirs: BTreeSet<String>,
    links: Vec<(String, String)>,
    read_only: bool,
}

fn disk(dirs: &[&str]) -> Disk {
    Disk {
        dirs: dirs.iter().map(|d| d.to_string()).collect(),
        links: Vec::new(),
        read_only: false,
    }
}

impl Disk {
    fn canonical(&self, path: &str) -> Result<String, String> {
        for (link, target) in &self.links {
            if path == link {
                return Ok(target.clone());
            }
        }
        match self.dirs.contains(path) {
            true => Ok(path.into()),
            false => Err("not found".into()),
        }
    }

    fn check(&mut self, o: &Options) -> Result<(String, String), FatalError> {
        let lexical = absolute("/", &o.dest);
        let mut flight = prepare(o, lexical)?;
        while let Some(ask) = flight.ask() {
            let reply = match ask {
                Ask::IsDir(p) => self.canonical(&p),
                Ask::Canonical(p) => self.canonical(&p),
                Ask::CreateDir(p) => {
                    if !self.links.iter().any(|(link, _)| *link == p) {
                        self.dirs.insert(p.clone());
                    }
                    Ok(p)
                }
                Ask::Probe(p) => match self.read_only {
                    true => Err("read-only".into()),
                    false => Ok(p),
                },
            };
            flight = flight.reply(reply)?;
        }
        let (s, d) = flight.roots().unwrap();
        Ok((s.to_string(), d.to_string()))
    }
}

#[test]
fn accepts_disjoint_roots() {
    let mut disk = disk(&["/s"]);
    assert_eq!(
        disk.check(&opts("/s", "/d")).unwrap(),
        ("/s".to_string(), "/d".to_string())
    );
    assert!(disk.dirs.contains("/d"), "destination is created");
}

#[test]
fn rejects_destination_inside_source() {
    let mut disk = disk(&["/s"]);
    let r = disk.check(&opts("/s", "/s/out"));
    assert!(matches!(r, Err(FatalError::Overlap { .. })));
}

#[test]
fn rejects_source_inside_destination() {
    let mut disk = disk(&["/d", "/d/inner"]);
    let r = disk.check(&opts("/d/inner", "/d"));
    assert!(matches!(r, Err(FatalError::Overlap { .. })));
}

#[test]
fn rejects_identical_roots() {
    let mut disk = disk(&["/s"]);
    let r = disk.check(&opts("/s", "/s"));
    assert!(matches!(r, Err(FatalError::Overlap { .. })));
}

#[test]
fn rejects_a_missing_source() {
    let mut disk = disk(&[]);
    let r = disk.check(&opts("/nope", "/d"));
    assert!(matches!(r, Err(FatalError::SourceUnavailable(_))));
}

#[test]
fn a_missing_source_is_fatal_not_an_empty_run() {
    let mut disk = disk(&[]);
    let e = disk.check(&opts("/nope", "/out")).unwrap_err();
    assert_eq!(
        e.message(),
        "source directory does not exist or is not a directory: /nope"
    );
    assert!(disk.dirs.is_empty(), "a refused run made a directory");
}

#[test]
fn overwrite_demands_force() {
    let mut disk = disk(&["/s"]);
    let mut o = opts("/s", "/d");
    o.on_conflict = OnConflict::Overwrite;
    assert!(matches!(
        disk.check(&o),
        Err(FatalError::OverwriteWithoutForce)
    ));
    o.force = true;
    assert!(disk.check(&o).is_ok());
}

#[test]
fn overlapping_roots_are_refused_before_anything_moves() {
    let mut disk = disk(&["/s"]);
    assert!(disk.check(&opts("/s", "/s/../s/out")).is_err());
    assert!(
        !disk.dirs.contains("/s/../s/out"),
        "the refused run still created the destination"
    );
}

#[test]
fn a_link_into_the_source_is_caught_once_it_is_followed() {
    let mut disk = disk(&["/s", "/s/deep"]);
    disk.links.push(("/link".into(), "/s/deep".into()));
    let r = disk.check(&opts("/s", "/link"));
    assert!(matches!(r, Err(FatalError::Overlap { .. })));
}

#[test]
fn a_linked_parent_is_followed_before_anything_is_made() {
    for dest in ["/l/out", "/l/deep/out", "/l/new/../out/"] {
        let mut disk = disk(&["/s", "/s/in", "/d"]);
        disk.links.push(("/l".into(), "/s/in".into()));
        let before = disk.dirs.clone();
        let e = disk.check(&opts("/s", dest)).unwrap_err();
        assert!(matches!(e, FatalError::Overlap { .. }), "{dest}");
        assert_eq!(disk.dirs, before, "a refused run made a directory");
    }
    let mut apart = disk(&["/s", "/d"]);
    apart.links.push(("/l".into(), "/d".into()));
    apart.dirs.insert("/l/out".into());
    assert!(apart.check(&opts("/s", "/l/out")).is_ok());
}

#[test]
fn roots_are_compared_name_by_name() {
    assert!(overlap("//a", "/a/b").is_err());
    assert!(overlap("/a/", "/a//b").is_err());
    assert!(overlap("/", "/a").is_err());
    assert!(overlap("/a", "/a/./b").is_err());
    assert!(overlap("/a", "/ab").is_ok());
    assert!(overlap("/a", "a").is_ok());
}

#[test]
fn a_dry_run_makes_no_directory() {
    let mut disk = disk(&["/s"]);
    disk.read_only = true;
    let mut o = opts("/s", "/d/./x/..");
    o.dry_run = true;
    assert_eq!(disk.check(&o).unwrap().1, "/d");
    assert!(!disk.dirs.contains("/d"));
}

#[test]
fn a_read_only_destination_is_refused() {
    let mut disk = disk(&["/s"]);
    disk.read_only = true;
    match disk.check(&opts("/s", "/d")) {
        Err(FatalError::DestinationUnavailable { path, source }) => {
            assert_eq!(path, "/d");
            assert_eq!(source, "read-only");
        }
        _ => panic!("the run was let through"),
    }
}

#[test]
fn a_neighbour_with_a_longer_name_does_not_overlap() {
    assert!(overlap("/photos", "/photos-out").is_ok());
    assert!(overlap("/photos", "/photos/out").is_err());
    assert!(overlap("/", "/photos").is_err());
    assert!(overlap("/photos", "/").is_err());
}

#[test]
fn dots_are_resolved_lexically() {
    assert_eq!(absolute("/", "a/./b/../c"), "/a/c");
    assert_eq!(absolute("/", "../../x"), "/x");
    assert_eq!(absolute("C:/", "a//b/"), "C:/a/b");
}

#[test]
fn verbatim_prefixes_are_stripped_on_windows() {
    assert_eq!(plain(r"\\?\C:\a", Platform::Windows), r"C:\a");
    assert_eq!(plain(r"\\?\UNC\srv\x", Platform::Windows), r"\\srv\x");
    assert_eq!(plain(r"\\?\C:\a", Platform::Unix), r"\\?\C:\a");
}

#[test]
fn the_probe_is_a_temp_file() {
    assert_eq!(probe_path("/d"), "/d/.po-tmp-probe");
}

#[test]
fn a_copy_that_cannot_fit_is_refused() {
    assert!(check_space(Some(10), 10, Mode::Copy).is_ok());
    assert!(check_space(None, u64::MAX, Mode::Copy).is_ok());
    assert!(matches!(
        check_space(Some(10), u64::MAX, Mode::Copy),
        Err(FatalError::DiskFull {
            needed: u64::MAX,
            available: 10
        })
    ));
    assert!(check_space(Some(10), u64::MAX, Mode::Move).is_ok());
}
