use wonderwall::cli::{request_packet, Opt};
use wonderwall::packet::Packet;
use wonderwall::server::{
    parse_set_dir, DirectoryRequest, ServerError, Step, WallpaperOptions, WallpaperServer,
};

fn names(v: &[&str]) -> Vec<String> {
    v.iter().map(|s| s.to_string()).collect()
}

fn options(dir: &str, random: bool) -> WallpaperOptions {
    WallpaperOptions { directory: dir.to_string(), duration: 600, recursive: false, random }
}

fn request(verb: &str, body: &str) -> Option<Vec<u8>> {
    Some(request_packet(verb, body).as_bytes())
}

fn reply(step: Step) -> Packet {
    match step {
        Step::Reply(p) => p,
        _ => panic!("expected a reply"),
    }
}

#[test]
fn start_then_next_cycles_to_second() {
    let files = names(&["a.png", "b.png"]);
    let mut s = WallpaperServer::new(options("/walls", false), files.clone());
    assert_eq!(s.data.current_wallpaper, "a.png");
    assert_eq!(s.data.next_wallpaper, "b.png");
    assert_eq!(s.data.index, 0);

    let r = reply(s.handle_request(request("NEXT", "")));
    assert_eq!(r.method, "HTTP/1.1 200");
    assert_eq!(r.body, "Cycled wallpaper to a.png");
    assert!(s.wake);
    assert_eq!(reply(s.handle_request(request("GETWP", ""))).body, "a.png");

    assert!(s.take_wake());
    assert!(!s.wake);
    assert_eq!(s.cycle(&files).unwrap(), "b.png");
    assert_eq!(reply(s.handle_request(request("GETWP", ""))).body, "b.png");
    assert_eq!(reply(s.handle_request(request("GETDIR", ""))).body, "/walls");
}

#[test]
fn ordered_cycles_visit_every_file_once() {
    let files = names(&["1.png", "2.png", "3.png", "4.png"]);
    let mut s = WallpaperServer::new(options("/w", false), files.clone());
    let mut seen: Vec<String> = Vec::new();
    for _ in 0..files.len() {
        s.cycle(&files).unwrap();
        assert!(!seen.contains(&s.data.current_wallpaper));
        seen.push(s.data.current_wallpaper.clone());
    }
    assert_eq!(seen, names(&["2.png", "3.png", "4.png", "1.png"]));
}

#[test]
fn random_start_picks_two_different_files() {
    let files = names(&["a", "b", "c"]);
    for _ in 0..50 {
        let s = WallpaperServer::new(options("/w", true), files.clone());
        assert_ne!(s.data.current_wallpaper, s.data.next_wallpaper);
        assert!(files.contains(&s.data.current_wallpaper));
        assert!(files.contains(&s.data.next_wallpaper));
        assert_eq!(s.data.index, 0);
    }
}

#[test]
fn random_cycle_queues_an_entry_of_the_listing() {
    let files = names(&["a", "b", "c"]);
    let mut s = WallpaperServer::new(options("/w", true), files.clone());
    for _ in 0..20 {
        let before = s.data.next_wallpaper.clone();
        assert_eq!(s.cycle(&files).unwrap(), before);
        assert_eq!(s.data.current_wallpaper, before);
        assert_eq!(files[s.data.index], s.data.next_wallpaper);
        assert_ne!(s.data.current_wallpaper, s.data.next_wallpaper);
    }
}

#[test]
fn single_file_is_shown_and_queued() {
    let files = names(&["only.png"]);
    let mut s = WallpaperServer::new(options("/w", false), files.clone());
    assert_eq!(s.data.current_wallpaper, "only.png");
    assert_eq!(s.data.next_wallpaper, "only.png");
    assert_eq!(s.cycle(&files).unwrap(), "only.png");
    assert_eq!(s.data.next_wallpaper, "only.png");
}

#[test]
fn empty_start_has_no_wallpapers() {
    let mut s = WallpaperServer::new(options("/w", false), Vec::new());
    assert_eq!(s.data.current_wallpaper, "");
    assert_eq!(s.data.next_wallpaper, "");
    assert!(matches!(s.cycle(&Vec::new()), Err(ServerError::EmptyDirectory)));
}

#[test]
fn setwp_queues_value_and_wakes() {
    let mut s = WallpaperServer::new(options("/w", false), names(&["a", "b"]));
    let r = reply(s.handle_request(request("setwp", "/elsewhere/x.png")));
    assert_eq!(r.body, "Updated wallpaper to /elsewhere/x.png");
    assert_eq!(s.data.next_wallpaper, "/elsewhere/x.png");
    assert!(s.wake);
    assert_eq!(s.cycle(&names(&["a", "b"])).unwrap(), "/elsewhere/x.png");
}

#[test]
fn setdir_to_missing_directory_changes_nothing() {
    let mut s = WallpaperServer::new(options("/w", false), names(&["a", "b"]));
    let step = s.handle_request(request("SETDIR", "\n\n/does/not/exist"));
    let req = match step {
        Step::ListDirectory(d) => d,
        _ => panic!("expected a listing request"),
    };
    assert_eq!(req.path, "/does/not/exist");
    let r = s.set_dir(req, Err("No such file or directory (os error 2)".to_string()));
    assert_eq!(r.method, "HTTP/1.1 400");
    assert_eq!(
        r.body,
        "There was an error setting the directory: No such file or directory (os error 2)"
    );
    assert_eq!(s.data.directory, "/w");
    assert_eq!(s.data.current_wallpaper, "a");
    assert_eq!(s.data.next_wallpaper, "b");
}

#[test]
fn setdir_to_empty_directory_succeeds_and_cycle_waits() {
    let mut s = WallpaperServer::new(options("/w", false), names(&["a", "b"]));
    let step = s.handle_request(request("SETDIR", "\n\n/tmp/empty-dir"));
    let req = match step {
        Step::ListDirectory(d) => d,
        _ => panic!("expected a listing request"),
    };
    assert!(!req.recursive && !req.random);
    let r = s.set_dir(req, Ok(Vec::new()));
    assert_eq!(r.method, "HTTP/1.1 200");
    assert_eq!(r.body, "Wonderwall will now cycle through /tmp/empty-dir");
    assert_eq!(s.data.directory, "/tmp/empty-dir");
    assert!(matches!(s.cycle(&Vec::new()), Err(ServerError::EmptyDirectory)));
    assert_eq!(s.data.current_wallpaper, "a");
    assert_eq!(s.data.next_wallpaper, "b");
}

#[test]
fn setdir_queues_first_file_and_wakes() {
    let mut s = WallpaperServer::new(options("/w", false), names(&["a", "b"]));
    let req = DirectoryRequest { path: "/new".to_string(), recursive: true, random: false };
    let r = s.set_dir(req, Ok(names(&["/new/x", "/new/y"])));
    assert_eq!(r.method, "HTTP/1.1 200");
    assert!(s.wake && s.data.recursive && !s.data.random);
    assert_eq!(s.data.next_wallpaper, "/new/x");
    assert_eq!(s.cycle(&names(&["/new/x", "/new/y"])).unwrap(), "/new/x");
    assert_eq!(s.data.next_wallpaper, "/new/y");
}

#[test]
fn setdir_body_needs_three_fields() {
    let mut s = WallpaperServer::new(options("/w", false), names(&["a"]));
    let r = reply(s.handle_request(request("SETDIR", "only one field")));
    assert_eq!(r.method, "HTTP/1.1 400");
    assert_eq!(r.body, "Invalid request format");
    let d = parse_set_dir("yes\n\n/p/with\nnewline").unwrap();
    assert!(d.recursive && !d.random);
    assert_eq!(d.path, "/p/with\nnewline");
}

#[test]
fn ping_answers_pong() {
    let mut s = WallpaperServer::new(options("/w", false), names(&["a"]));
    let r = reply(s.handle_request(request("PING", "")));
    assert_eq!(r.method, "HTTP/1.1 200");
    assert_eq!(r.body, "pong");
}

#[test]
fn kill_stops_after_reply() {
    let mut s = WallpaperServer::new(options("/w", false), names(&["a"]));
    match s.handle_request(request("KILL", "")) {
        Step::Stop(p) => assert_eq!(p.body, "Stopping server..."),
        _ => panic!("expected stop"),
    }
}

#[test]
fn bad_requests_get_client_errors() {
    let mut s = WallpaperServer::new(options("/w", false), names(&["a"]));
    let r = reply(s.handle_request(request("UPDATE", "x")));
    assert_eq!((r.method.as_str(), r.body.as_str()), ("HTTP/1.1 400", "Invalid request!"));
    let r = reply(s.handle_request(Some(b"garbage".to_vec())));
    assert_eq!((r.method.as_str(), r.body.as_str()), ("HTTP/1.1 400", "Request has bad format"));
    let r = reply(s.handle_request(Some(b"POST /\r\nOther: x\r\n\r\n".to_vec())));
    assert_eq!((r.method.as_str(), r.body.as_str()), ("HTTP/1.1 400", "Missing required headers"));
    let r = reply(s.handle_request(None));
    assert_eq!((r.method.as_str(), r.body.as_str()), ("HTTP/1.1 300", "Internal server error"));
    assert!(!s.wake);
}

#[test]
fn fatal_errors() {
    assert!(ServerError::HyprpaperError.is_fatal());
    assert!(ServerError::DirectoryError.is_fatal());
    assert!(!ServerError::EmptyDirectory.is_fatal());
    assert!(!ServerError::Kill.is_fatal());
}

#[test]
fn client_commands_build_requests() {
    let set_dir = Opt::SetDir { directory: "/w".to_string(), recursive: true, random: false };
    let p = set_dir.request().unwrap();
    assert_eq!(p.to_text(), "POST /\r\nWallpaperControl: SETDIR\r\n\r\ntrue\n\n/w");
    let p = Opt::Update { path: "/a.png".to_string() }.request().unwrap();
    assert_eq!(p.to_text(), "POST /\r\nWallpaperControl: SETWP\r\n\r\n/a.png");
    let start = Opt::Start {
        directory: "/w".to_string(),
        recursive: false,
        random: true,
        log: None,
        duration: 30,
        fg: true,
    };
    assert!(start.request().is_none());
    let o = start.options().unwrap();
    assert_eq!((o.directory.as_str(), o.duration, o.random), ("/w", 30, true));
    assert!(Opt::Ping.options().is_none());
}

#[test]
fn liveness_probe_reply() {
    assert!(wonderwall::server::answers_pong("pong"));
    assert!(wonderwall::server::answers_pong(" pong\n"));
    assert!(!wonderwall::server::answers_pong("pong pong"));
    assert!(!wonderwall::server::answers_pong(""));
}

#[test]
fn repeated_cycles_show_distinct_wallpapers() {
    let files = names(&["a", "b", "c", "d", "e"]);
    let mut s = WallpaperServer::new(options("/w", false), files.clone());
    let shown = s.cycle_times(&files, 5);
    assert_eq!(shown, names(&["b", "c", "d", "e", "a"]));
    assert!(s.cycle_times(&Vec::new(), 3).is_empty());
}

#[test]
fn setwp_then_cycle_queues_the_following_entry() {
    let files = names(&["a", "b", "c"]);
    let mut s = WallpaperServer::new(options("/w", false), files.clone());
    s.cycle(&files).unwrap();
    assert_eq!((s.data.current_wallpaper.as_str(), s.data.next_wallpaper.as_str()), ("b", "c"));
    s.set_wp("/x.png".to_string());
    assert_eq!(s.cycle(&files).unwrap(), "/x.png");
    assert_eq!(s.data.next_wallpaper, "a");
}

#[test]
fn start_queues_a_different_name() {
    let files = names(&["x", "x", "y"]);
    let s = WallpaperServer::new(options("/w", false), files.clone());
    assert_eq!((s.data.current_wallpaper.as_str(), s.data.next_wallpaper.as_str()), ("x", "y"));
    for _ in 0..50 {
        let s = WallpaperServer::new(options("/w", true), files.clone());
        assert_ne!(s.data.current_wallpaper, s.data.next_wallpaper);
    }
    let same = names(&["z", "z"]);
    let s = WallpaperServer::new(options("/w", false), same);
    assert_eq!((s.data.current_wallpaper.as_str(), s.data.next_wallpaper.as_str()), ("z", "z"));
}

#[test]
fn random_cycle_times_start_with_queued() {
    let files = names(&["a", "b", "c"]);
    let mut s = WallpaperServer::new(options("/w", true), files.clone());
    let queued = s.data.next_wallpaper.clone();
    let shown = s.cycle_times(&files, 4);
    assert_eq!(shown.len(), 4);
    assert_eq!(shown[0], queued);
    assert!(files.contains(&s.data.next_wallpaper));
}
