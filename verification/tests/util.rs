use ascii_rat::cast::{AsciiCast, Event, Header};
use ascii_rat::util::{marker_md_list, number_lines, resolve_output_file};

#[test]
fn markers_render_as_seek_links() {
    let events = vec![
        Event::Output {
            time: 0,
            data: "x".into(),
        },
        Event::Marker {
            time: 1_500_000_000,
            label: "Intro".into(),
        },
        Event::Marker {
            time: 3_250_000_000,
            label: "END".into(),
        },
    ];
    let cast = AsciiCast::new(Header::new(80, 24), events);
    let lines = marker_md_list(&cast, &None);
    assert_eq!(lines.len(), 2);
    assert_eq!(
        lines[0],
        "<a data-seek-to=\"1.5\" href=\"javascript:;\">Intro</a>"
    );
    assert_eq!(
        lines[1],
        "<a data-seek-to=\"3.25\" href=\"javascript:;\">END</a>"
    );
    let numbered = number_lines(&lines);
    assert!(numbered[0].starts_with("1. <a "));
    assert!(numbered[1].starts_with("2. <a "));
}

#[test]
fn markers_include_data_video_id() {
    let events = vec![Event::Marker {
        time: 2_000_000_000,
        label: "M".into(),
    }];
    let cast = AsciiCast::new(Header::new(80, 24), events);
    let lines = marker_md_list(&cast, &Some("vid1".to_string()));
    assert_eq!(
        lines[0],
        "<a data-video=\"vid1\" data-seek-to=\"2\" href=\"javascript:;\">M</a>"
    );
}

#[test]
fn output_file_resolves_relative_to_script_dir() {
    let resolved = resolve_output_file("/tmp/demos/demo.yaml", "out.cast");
    assert_eq!(resolved, "/tmp/demos/out.cast");
}

#[test]
fn output_file_absolute_is_kept() {
    let resolved = resolve_output_file("/tmp/demos/demo.yaml", "/var/tmp/out.cast");
    assert_eq!(resolved, "/var/tmp/out.cast");
}

#[test]
fn output_file_beside_a_script_without_directory() {
    assert_eq!(resolve_output_file("demo.yaml", "out.cast"), "out.cast");
    assert_eq!(resolve_output_file("/demo.yaml", "a/out.cast"), "/a/out.cast");
}

#[test]
fn output_file_beside_a_script_as_std_has_it() {
    let scripts = [
        "", "/", "//", ".", "./", "/.", "..", "../", "a", "a/", "a//", "./a", "./a/", ".//a", "a/.",
        "a/./", "/a", "/a/", "//a", "/a/.", "/a/b", "/a//b", "/a/./b", "/a/b/", "/a/b/.", "a/b//.",
        "a/./b", "a/.b", "a/b.", ".a", ".a/b", "./.", "././a", "../a", "a/..", "a/../b", "/..",
        "/../a", "/./a", "/tmp/demos/", "...", "a/...",
    ];
    for script in scripts {
        for file in ["out.cast", "x/out.cast", "./o", "../o", "", "/abs", "."] {
            let want = match std::path::Path::new(script).parent() {
                Some(dir) => dir.join(file),
                None => std::path::PathBuf::from(file),
            };
            let want = if file.starts_with('/') { file } else { want.to_str().unwrap() };
            assert_eq!(resolve_output_file(script, file), want, "{script:?} {file:?}");
        }
    }
}
