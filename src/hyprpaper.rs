//! Applying a wallpaper with hyprpaper takes three `hyprctl` commands run
//! in turn: preload the file, show it, unload what is no longer used. Each
//! must print `ok`. The plan here says which command comes next and judges
//! each output; running the commands is up to the caller.
use vstd::prelude::*;

verus! {

/// The output of a `hyprctl` command that was not the success marker.
pub struct HyprpaperError(pub String);

/// What `hyprctl` prints on success.
pub open spec fn ok_output() -> Seq<char> {
    "ok\n"@
}

/// The commands that apply the wallpaper at `path`, in order.
pub open spec fn hyprpaper_commands(path: Seq<char>) -> Seq<Seq<char>> {
    seq![
        "hyprctl hyprpaper preload "@ + path,
        "hyprctl hyprpaper wallpaper ', "@ + path + "'"@,
        "hyprctl hyprpaper unload unused"@,
    ]
}

/// Progress through the commands that apply one wallpaper: `stage`
/// commands have succeeded so far.
pub struct HyprpaperUpdate {
    pub path: String,
    pub stage: usize,
}

/// The plan that applies the wallpaper at `path`; `None` when `path` is
/// empty, as there is nothing to show.
pub fn hyprpaper_update(path: &str) -> (r: Option<HyprpaperUpdate>)
    ensures
        path@.len() == 0 <==> r is None,
        r matches Some(u) ==> (u.path@ == path@ && u.stage == 0),
{
    if path.is_empty() {
        None
    } else {
        Some(HyprpaperUpdate { path: String::from_str(path), stage: 0 })
    }
}

impl HyprpaperUpdate {
    /// All three commands have succeeded.
    pub fn finished(&self) -> (r: bool)
        ensures
            r == (self.stage >= 3),
    {
        self.stage >= 3
    }

    /// The command to run next.
    pub fn command(&self) -> (r: String)
        requires
            self.stage < 3,
        ensures
            r@ == hyprpaper_commands(self.path@)[self.stage as int],
    {
        if self.stage == 0 {
            let mut c = String::from_str("hyprctl hyprpaper preload ");
            c.append(self.path.as_str());
            c
        } else if self.stage == 1 {
            let mut c = String::from_str("hyprctl hyprpaper wallpaper ', ");
            c.append(self.path.as_str());
            c.append("'");
            c
        } else {
            String::from_str("hyprctl hyprpaper unload unused")
        }
    }

    /// Judges the output of the command last run: on the success marker the
    /// plan moves on, and `Ok(true)` says it is complete; any other output
    /// is the error, and the plan stays where it was.
    pub fn record_output(&mut self, stdout: &str) -> (r: Result<bool, HyprpaperError>)
        requires
            old(self).stage < 3,
        ensures
            final(self).path@ == old(self).path@,
            stdout@ == ok_output() ==> (r matches Ok(done) && done == (final(self).stage == 3)),
            stdout@ == ok_output() ==> final(self).stage == old(self).stage + 1,
            stdout@ != ok_output() ==> (r matches Err(e) && e.0@ == stdout@),
            stdout@ != ok_output() ==> final(self).stage == old(self).stage,
    {
        if String::from_str(stdout) == String::from_str("ok\n") {
            self.stage = self.stage + 1;
            Ok(self.stage == 3)
        } else {
            Err(HyprpaperError(String::from_str(stdout)))
        }
    }
}

} // verus!
