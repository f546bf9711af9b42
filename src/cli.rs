//! The command line: start the daemon, or send it one command.
use vstd::prelude::*;

use crate::packet::{Packet, PacketView};
use crate::server::WallpaperOptions;

verus! {

/// What the command line asks for.
pub enum Opt {
    /// Start the daemon on a directory.
    Start {
        directory: String,
        recursive: bool,
        random: bool,
        log: Option<String>,
        duration: u64,
        fg: bool,
    },
    /// Show a given wallpaper next.
    Update { path: String },
    /// Move on to the next wallpaper.
    Next,
    /// Print the directory being cycled through.
    GetDir,
    /// Cycle through another directory.
    SetDir { directory: String, recursive: bool, random: bool },
    /// Check that the daemon answers.
    Ping,
    /// Stop the daemon.
    Kill,
}

/// The parsed command line.
pub struct Args {
    pub command: Opt,
}

/// A request carrying `command` in its `WallpaperControl` header.
pub open spec fn request_view(command: Seq<char>, body: Seq<char>) -> PacketView {
    PacketView { method: "POST /"@, headers: seq![("WallpaperControl"@, command)], body }
}

/// Builds the request packet for `command` with `body`.
pub fn request_packet(command: &str, body: &str) -> (r: Packet)
    ensures
        r@ == request_view(command@, body@),
{
    let mut headers: Vec<(String, String)> = Vec::new();
    headers.push((String::from_str("WallpaperControl"), String::from_str(command)));
    let r = Packet { method: String::from_str("POST /"), headers, body: String::from_str(body) };
    assert(r@.headers =~= seq![("WallpaperControl"@, command@)]);
    r
}

/// A flag field of a `SETDIR` body: empty for false.
pub open spec fn flag_text(b: bool) -> Seq<char> {
    if b {
        "true"@
    } else {
        ""@
    }
}

fn flag_str(b: bool) -> (r: &'static str)
    ensures
        r@ == flag_text(b),
{
    if b {
        "true"
    } else {
        ""
    }
}

impl Opt {
    /// The request that a client command sends; `None` for `Start`.
    pub fn request(&self) -> (r: Option<Packet>)
        ensures
            match self {
                Opt::Start { .. } => r is None,
                Opt::Update { path } => r matches Some(p) && p@ == request_view("SETWP"@, path@),
                Opt::Next => r matches Some(p) && p@ == request_view("NEXT"@, ""@),
                Opt::GetDir => r matches Some(p) && p@ == request_view("GETDIR"@, ""@),
                Opt::SetDir { directory, recursive, random } => r matches Some(p) && p@
                    == request_view(
                    "SETDIR"@,
                    flag_text(*recursive) + "\n"@ + flag_text(*random) + "\n"@ + directory@,
                ),
                Opt::Ping => r matches Some(p) && p@ == request_view("PING"@, ""@),
                Opt::Kill => r matches Some(p) && p@ == request_view("KILL"@, ""@),
            },
    {
        match self {
            Opt::Start { .. } => None,
            Opt::Update { path } => Some(request_packet("SETWP", path.as_str())),
            Opt::Next => Some(request_packet("NEXT", "")),
            Opt::GetDir => Some(request_packet("GETDIR", "")),
            Opt::SetDir { directory, recursive, random } => {
                let mut body = String::from_str(flag_str(*recursive));
                body.append("\n");
                body.append(flag_str(*random));
                body.append("\n");
                body.append(directory.as_str());
                Some(request_packet("SETDIR", body.as_str()))
            },
            Opt::Ping => Some(request_packet("PING", "")),
            Opt::Kill => Some(request_packet("KILL", "")),
        }
    }

    /// The options a `Start` command gives the daemon.
    pub fn options(&self) -> (r: Option<WallpaperOptions>)
        ensures
            match self {
                Opt::Start { directory, recursive, random, duration, .. } => r matches Some(o) && o.directory@
                    == directory@ && o.recursive == *recursive && o.random == *random && o.duration
                    == *duration,
                _ => r is None,
            },
    {
        match self {
            Opt::Start { directory, recursive, random, duration, .. } => Some(
                WallpaperOptions {
                    directory: directory.clone(),
                    duration: *duration,
                    recursive: *recursive,
                    random: *random,
                },
            ),
            _ => None,
        }
    }
}

} // verus!
