use wonderwall::hyprpaper::{hyprpaper_update, HyprpaperUpdate};

#[test]
fn file_utils_test_hyprpaper() {
    let _result = hyprpaper_update("~/Pictures/Backgrounds/ssg-vegeta.jpg").unwrap();
}

#[test]
fn utils_test_hyprpaper() {
    let _result = hyprpaper_update("~/Pictures/Backgrounds/ssgvegeta.png").unwrap();
}

#[test]
fn empty_path_has_nothing_to_apply() {
    assert!(hyprpaper_update("").is_none());
}

#[test]
fn commands_run_in_order_until_done() {
    let mut job: HyprpaperUpdate = hyprpaper_update("/w/a.png").unwrap();
    assert_eq!(job.command(), "hyprctl hyprpaper preload /w/a.png");
    assert!(matches!(job.record_output("ok\n"), Ok(false)));
    assert_eq!(job.command(), "hyprctl hyprpaper wallpaper ', /w/a.png'");
    assert!(matches!(job.record_output("ok\n"), Ok(false)));
    assert_eq!(job.command(), "hyprctl hyprpaper unload unused");
    assert!(matches!(job.record_output("ok\n"), Ok(true)));
    assert!(job.finished());
}

#[test]
fn other_output_is_the_error() {
    let mut job = hyprpaper_update("/w/a.png").unwrap();
    match job.record_output("wallpaper failed to load\n") {
        Err(e) => assert_eq!(e.0, "wallpaper failed to load\n"),
        Ok(_) => panic!("accepted a failure"),
    }
    assert_eq!(job.stage, 0);
    assert!(!job.finished());
}
