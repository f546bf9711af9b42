//! The daemon's session: directory, current and next wallpaper, cycling
//! options and the wake flag; the cycling step; request dispatch and the
//! command handlers. Reading the socket, listing directories and running
//! the wallpaper tool are left to the caller, which hands their results in.
use vstd::prelude::*;
use vstd::utf8::encode_utf8;

use crate::packet::{
    decode_bytes, decode_packet, header_value, trim_of, trim_str, unique_names, Packet, PacketView,
};
use crate::text::{chars_of, find, find_in, lemma_find_from_found, slice_string};

verus! {

/// The decimal digit `d`.
pub open spec fn digit_char(d: nat) -> char {
    seq!['0', '1', '2', '3', '4', '5', '6', '7', '8', '9'][d as int]
}

/// Decimal representation of `n`, without sign or leading zeros.
pub open spec fn decimal(n: nat) -> Seq<char>
    decreases n,
{
    if n < 10 {
        seq![digit_char(n)]
    } else {
        decimal(n / 10).push(digit_char(n % 10))
    }
}

/// The decimal digit `d` as a one-character string.
fn digit_str(d: u64) -> (r: &'static str)
    requires
        d < 10,
    ensures
        r@ == seq![digit_char(d as nat)],
{
    proof {
        reveal_strlit("0");
        reveal_strlit("1");
        reveal_strlit("2");
        reveal_strlit("3");
        reveal_strlit("4");
        reveal_strlit("5");
        reveal_strlit("6");
        reveal_strlit("7");
        reveal_strlit("8");
        reveal_strlit("9");
    }
    let r = match d {
        0 => "0",
        1 => "1",
        2 => "2",
        3 => "3",
        4 => "4",
        5 => "5",
        6 => "6",
        7 => "7",
        8 => "8",
        _ => "9",
    };
    assert(r@ =~= seq![digit_char(d as nat)]);
    r
}

/// The decimal digits of `n`.
pub fn decimal_string(n: u64) -> (r: String)
    ensures
        r@ == decimal(n as nat),
    decreases n,
{
    if n < 10 {
        String::from_str(digit_str(n))
    } else {
        let mut s = decimal_string(n / 10);
        s.append(digit_str(n % 10));
        s
    }
}

/// A response: `HTTP/1.1 ` and the status code on the status line, no
/// headers, the body.
pub open spec fn response_view(status: u64, body: Seq<char>) -> PacketView {
    PacketView { method: "HTTP/1.1 "@ + decimal(status as nat), headers: seq![], body }
}

/// Builds a response packet.
pub fn response(status: u64, body: &str) -> (r: Packet)
    ensures
        r@ == response_view(status, body@),
        unique_names(r@.headers),
{
    let mut line = String::from_str("HTTP/1.1 ");
    line.append(decimal_string(status).as_str());
    let r = Packet { method: line, headers: Vec::new(), body: String::from_str(body) };
    assert(r@.headers =~= seq![]);
    r
}

/// A plain-text HTTP response: the status line, `Content-Type` and
/// `Content-Length` (the body's length in UTF-8 bytes), a blank line, the
/// body.
pub open spec fn http_text(status_line: Seq<char>, body: Seq<char>) -> Seq<char> {
    "HTTP/1.1 "@ + status_line + "\r\nContent-Type: text/plain\r\nContent-Length: "@ + decimal(
        encode_utf8(body).len(),
    ) + "\r\n\r\n"@ + body
}

fn http_response_text(status_line: &str, body: &str) -> (r: String)
    ensures
        r@ == http_text(status_line@, body@),
{
    let len = body.as_bytes().len();
    assert(len as nat == encode_utf8(body@).len());
    let mut r = String::from_str("HTTP/1.1 ");
    r.append(status_line);
    r.append("\r\nContent-Type: text/plain\r\nContent-Length: ");
    r.append(decimal_string(len as u64).as_str());
    r.append("\r\n\r\n");
    r.append(body);
    assert(r@ =~= http_text(status_line@, body@));
    r
}

/// The text of a response with the given status and optional body.
pub fn build_response(status: u64, body: Option<String>) -> (r: String)
    ensures
        r@ == http_text(
            decimal(status as nat),
            match body {
                Some(b) => b@,
                None => seq![],
            },
        ),
{
    let text = match body {
        Some(b) => b,
        None => String::new(),
    };
    http_response_text(decimal_string(status).as_str(), text.as_str())
}

/// The text of a response: `200 OK` when `successful`, else
/// `400 Bad Request`.
pub fn build_packet(successful: bool, body: Option<String>) -> (r: String)
    ensures
        r@ == http_text(
            if successful {
                "200 OK"@
            } else {
                "400 Bad Request"@
            },
            match body {
                Some(b) => b@,
                None => seq![],
            },
        ),
{
    let text = match body {
        Some(b) => b,
        None => String::new(),
    };
    let status_line = if successful {
        "200 OK"
    } else {
        "400 Bad Request"
    };
    http_response_text(status_line, text.as_str())
}

/// Relies on `rand::random_range(..n)`: a value below `n`. It panics when
/// `n` is zero.
#[verifier::external_body]
fn random_below(n: usize) -> (r: usize)
    requires
        n > 0,
    ensures
        r < n,
{
    rand::random_range(..n)
}

/// Options the daemon starts with.
pub struct WallpaperOptions {
    pub directory: String,
    pub duration: u64,
    pub recursive: bool,
    pub random: bool,
}

/// The session record: what is shown, what comes next, and where from.
pub struct WallpaperData {
    pub directory: String,
    pub current_wallpaper: String,
    pub next_wallpaper: String,
    pub recursive: bool,
    pub random: bool,
    /// Position in the listing that the next ordered cycle moves on from.
    pub index: usize,
}

/// The daemon's state: the session record, the cycling period in seconds,
/// and the wake flag that commands raise to cut the wait short.
pub struct WallpaperServer {
    pub duration: u64,
    pub data: WallpaperData,
    pub wake: bool,
}

/// Mathematical model of the daemon's state.
pub ghost struct ServerView {
    pub duration: u64,
    pub directory: Seq<char>,
    pub current: Seq<char>,
    pub next: Seq<char>,
    pub recursive: bool,
    pub random: bool,
    pub index: nat,
    pub wake: bool,
}

impl View for WallpaperServer {
    type V = ServerView;

    open spec fn view(&self) -> ServerView {
        ServerView {
            duration: self.duration,
            directory: self.data.directory@,
            current: self.data.current_wallpaper@,
            next: self.data.next_wallpaper@,
            recursive: self.data.recursive,
            random: self.data.random,
            index: self.data.index as nat,
            wake: self.wake,
        }
    }
}

/// The names in a directory listing.
pub open spec fn names(files: Seq<String>) -> Seq<Seq<char>> {
    files.map_values(|f: String| f@)
}

/// Errors of the daemon.
#[derive(Debug, Clone, Copy, PartialEq, Eq, Structural)]
pub enum ServerError {
    /// A client asked the daemon to stop.
    Kill,
    /// The wallpaper tool did not accept a wallpaper.
    HyprpaperError,
    /// The control socket could not be used.
    SocketError,
    /// The wallpaper directory holds no files.
    EmptyDirectory,
    /// The wallpaper directory could not be read.
    DirectoryError,
}

impl ServerError {
    /// Errors after which the daemon cannot go on: the wallpaper tool is
    /// broken, or the directory cannot be read.
    pub fn is_fatal(&self) -> (r: bool)
        ensures
            r == (*self == ServerError::HyprpaperError || *self == ServerError::DirectoryError),
    {
        match self {
            ServerError::HyprpaperError => true,
            ServerError::DirectoryError => true,
            _ => false,
        }
    }
}

/// Index of the first entry, from `i` on and wrapping around, whose name
/// differs from `next`; gives up after `tries` steps.
pub open spec fn advance(files: Seq<Seq<char>>, next: Seq<char>, i: int, tries: nat) -> int
    decreases tries,
{
    if tries == 0 || files[i] != next {
        i
    } else {
        advance(files, next, (i + 1) % (files.len() as int), (tries - 1) as nat)
    }
}

/// `advance` stays in range, and lands on a name equal to `next` only when
/// every entry it stepped over holds `next`.
proof fn lemma_advance(files: Seq<Seq<char>>, next: Seq<char>, i: int, t: nat)
    requires
        0 <= i < files.len(),
    ensures
        0 <= advance(files, next, i, t) < files.len(),
        files[advance(files, next, i, t)] == next ==> forall|k: int|
            0 <= k < t ==> #[trigger] files[(i + k) % (files.len() as int)] == next,
    decreases t,
{
    let n = files.len() as int;
    if t == 0 || files[i] != next {
    } else {
        let i2 = (i + 1) % n;
        vstd::arithmetic::div_mod::lemma_mod_bound(i + 1, n);
        lemma_advance(files, next, i2, (t - 1) as nat);
        if files[advance(files, next, i, t)] == next {
            assert forall|k: int| 0 <= k < t implies #[trigger] files[(i + k) % n] == next by {
                if k == 0 {
                    vstd::arithmetic::div_mod::lemma_small_mod(i as nat, n as nat);
                } else {
                    vstd::arithmetic::div_mod::lemma_add_mod_noop(i + 1, k - 1, n);
                    vstd::arithmetic::div_mod::lemma_add_mod_noop(i2, k - 1, n);
                    vstd::arithmetic::div_mod::lemma_mod_twice(i + 1, n);
                    vstd::arithmetic::div_mod::lemma_mod_twice(k - 1, n);
                    assert((i2 + (k - 1)) % n == (i + k) % n);
                    assert(files[(i2 + (k - 1)) % n] == next);
                }
            }
        }
    }
}

/// Scanning a full round from any start lands on a name other than `next`
/// whenever the listing holds one.
proof fn lemma_scan_moves_on(files: Seq<Seq<char>>, next: Seq<char>, i: int)
    requires
        0 <= i < files.len(),
        exists|k: int| 0 <= k < files.len() && files[k] != next,
    ensures
        files[advance(files, next, i, files.len())] != next,
{
    let n = files.len() as int;
    lemma_advance(files, next, i, n as nat);
    let k = choose|k: int| 0 <= k < files.len() && files[k] != next;
    let d = if k >= i {
        k - i
    } else {
        k - i + n
    };
    vstd::arithmetic::div_mod::lemma_small_mod(k as nat, n as nat);
    if k < i {
        vstd::arithmetic::div_mod::lemma_mod_add_multiples_vanish(k, n);
        assert(i + d == k + n);
    }
    assert((i + d) % n == k);
}

/// Where an ordered cycle starts looking: one past the recorded position.
pub open spec fn cycle_start(s: ServerView, n: int) -> int {
    (s.index as int % n + 1) % n
}

/// The state after one ordered cycle over `files`: the queued wallpaper
/// becomes current; the position moves on by one, then past entries equal
/// to the wallpaper just brought up, and the entry there is queued.
pub open spec fn cycle_view(s: ServerView, files: Seq<Seq<char>>) -> ServerView {
    let n = files.len() as int;
    let j = advance(files, s.next, cycle_start(s, n), n as nat);
    ServerView { current: s.next, next: files[j], index: j as nat, ..s }
}

/// The entry at `advance(files, next, start, n)`, found by a scan.
fn scan(wallpapers: &Vec<String>, next: &String, start: usize) -> (j: usize)
    requires
        start < wallpapers.len(),
    ensures
        j as int == advance(names(wallpapers@), next@, start as int, wallpapers.len() as nat),
        j < wallpapers.len(),
{
    let n = wallpapers.len();
    let ghost files = names(wallpapers@);
    let mut i = start;
    let mut left: usize = n;
    proof {
        lemma_advance(files, next@, start as int, n as nat);
    }
    while left > 0 && wallpapers[i] == *next
        invariant
            n == wallpapers.len(),
            i < n,
            left <= n,
            files == names(wallpapers@),
            advance(files, next@, start as int, n as nat) == advance(
                files,
                next@,
                i as int,
                left as nat,
            ),
        decreases left,
    {
        assert(files[i as int] == wallpapers@[i as int]@);
        i = (i + 1) % n;
        left = left - 1;
    }
    assert(files[i as int] == wallpapers@[i as int]@);
    i
}

impl WallpaperServer {
    /// A server for a directory whose listing is `wallpapers`, at position
    /// 0. The first entry is shown first (a random one when `random` is set);
    /// the entry after it (a random other one) is queued, or, when that has
    /// the same name, the next entry in order whose name differs.
    pub fn new(options: WallpaperOptions, wallpapers: Vec<String>) -> (r: WallpaperServer)
        ensures
            r@.duration == options.duration,
            r@.directory == options.directory@,
            r@.recursive == options.recursive,
            r@.random == options.random,
            !r@.wake,
            r@.index == 0,
            wallpapers.len() == 0 ==> r@.current == Seq::<char>::empty() && r@.next == Seq::<
                char,
            >::empty(),
            wallpapers.len() > 0 && !options.random ==> r@.current == names(wallpapers@)[0]
                && r@.next == names(wallpapers@)[advance(
                names(wallpapers@),
                names(wallpapers@)[0],
                1int % (wallpapers.len() as int),
                wallpapers.len() as nat,
            )],
            wallpapers.len() > 0 ==> exists|f: int, g: int|
                0 <= f < wallpapers.len() && 0 <= g < wallpapers.len() && r@.current
                    == #[trigger] names(wallpapers@)[f] && r@.next == #[trigger] names(
                    wallpapers@,
                )[g],
            (exists|k: int|
                0 <= k < wallpapers.len() && #[trigger] names(wallpapers@)[k] != r@.current)
                ==> r@.next != r@.current,
    {
        let n = wallpapers.len();
        let ghost files = names(wallpapers@);
        let data = if n == 0 {
            WallpaperData {
                directory: options.directory,
                current_wallpaper: String::new(),
                next_wallpaper: String::new(),
                recursive: options.recursive,
                random: options.random,
                index: 0,
            }
        } else {
            let first = if options.random {
                random_below(n)
            } else {
                0
            };
            let second = if n == 1 {
                first
            } else if options.random {
                let r = random_below(n - 1);
                if r >= first {
                    r + 1
                } else {
                    r
                }
            } else {
                1
            };
            assert(!options.random ==> second as int == 1int % (n as int)) by {
                if !options.random && n > 1 {
                    vstd::arithmetic::div_mod::lemma_small_mod(1, n as nat);
                }
            }
            let shown = wallpapers[first].clone();
            let j = scan(&wallpapers, &shown, second);
            proof {
                assert(files[first as int] == wallpapers@[first as int]@);
                assert(files[j as int] == wallpapers@[j as int]@);
                if exists|k: int| 0 <= k < n && files[k] != shown@ {
                    lemma_scan_moves_on(files, shown@, second as int);
                }
            }
            WallpaperData {
                directory: options.directory,
                current_wallpaper: shown,
                next_wallpaper: wallpapers[j].clone(),
                recursive: options.recursive,
                random: options.random,
                index: 0,
            }
        };
        WallpaperServer { duration: options.duration, data, wake: false }
    }

    /// Consumes the wake flag: returns it and lowers it.
    pub fn take_wake(&mut self) -> (r: bool)
        ensures
            r == old(self)@.wake,
            final(self)@ == (ServerView { wake: false, ..old(self)@ }),
    {
        let r = self.wake;
        self.wake = false;
        r
    }

    /// One cycle over the directory listing `wallpapers`: the queued
    /// wallpaper becomes current and is returned, to be applied, and a new
    /// one is queued. In order, that is the entry after the recorded
    /// position, skipping entries equal to the wallpaper just brought up;
    /// at random, entries are drawn until one differs from it, and after as
    /// many draws as there are entries the listing is scanned in order from
    /// the last draw. An empty listing changes nothing.
    pub fn cycle(&mut self, wallpapers: &Vec<String>) -> (r: Result<String, ServerError>)
        ensures
            wallpapers.len() == 0 ==> r == Err::<String, ServerError>(ServerError::EmptyDirectory)
                && final(self)@ == old(self)@,
            wallpapers.len() > 0 ==> {
                &&& r is Ok
                &&& r->Ok_0@ == old(self)@.next
                &&& !old(self)@.random ==> final(self)@ == cycle_view(
                    old(self)@,
                    names(wallpapers@),
                )
                &&& (exists|k: int|
                    0 <= k < wallpapers.len() && #[trigger] names(wallpapers@)[k] != old(
                        self,
                    )@.next) ==> final(self)@.next != final(self)@.current
                &&& final(self)@.current == old(self)@.next
                &&& final(self)@.index < wallpapers.len()
                &&& final(self)@.next == names(wallpapers@)[final(self)@.index as int]
                &&& final(self)@ == (ServerView {
                    current: final(self)@.current,
                    next: final(self)@.next,
                    index: final(self)@.index,
                    ..old(self)@
                })
            },
    {
        let n = wallpapers.len();
        if n == 0 {
            return Err(ServerError::EmptyDirectory);
        }
        let ghost files = names(wallpapers@);
        let start = if self.data.random {
            let mut i = random_below(n);
            let mut left: usize = n - 1;
            while left > 0 && wallpapers[i] == self.data.next_wallpaper
                invariant
                    n == wallpapers.len(),
                    i < n,
                decreases left,
            {
                i = random_below(n);
                left = left - 1;
            }
            i
        } else {
            (self.data.index % n + 1) % n
        };
        let j = scan(wallpapers, &self.data.next_wallpaper, start);
        proof {
            assert(files[j as int] == wallpapers@[j as int]@);
            if exists|k: int| 0 <= k < n && files[k] != self.data.next_wallpaper@ {
                lemma_scan_moves_on(files, self.data.next_wallpaper@, start as int);
            }
        }
        let shown = self.data.next_wallpaper.clone();
        self.data.current_wallpaper = self.data.next_wallpaper.clone();
        self.data.next_wallpaper = wallpapers[j].clone();
        self.data.index = j;
        Ok(shown)
    }

    /// Runs `times` cycles over the same listing and returns the wallpapers
    /// they bring up, in order; none when the listing is empty.
    pub fn cycle_times(&mut self, wallpapers: &Vec<String>, times: usize) -> (r: Vec<String>)
        ensures
            wallpapers.len() == 0 ==> r@.len() == 0 && final(self)@ == old(self)@,
            wallpapers.len() > 0 ==> r@.len() == times,
            wallpapers.len() > 0 && times > 0 ==> {
                &&& r@[0]@ == old(self)@.next
                &&& final(self)@.index < wallpapers.len()
                &&& final(self)@.next == names(wallpapers@)[final(self)@.index as int]
                &&& final(self)@.random == old(self)@.random
                &&& final(self)@.directory == old(self)@.directory
                &&& final(self)@.recursive == old(self)@.recursive
                &&& final(self)@.duration == old(self)@.duration
            },
            wallpapers.len() > 0 && !old(self)@.random ==> {
                &&& final(self)@ == cycled(old(self)@, names(wallpapers@), times as nat)
                &&& forall|i: int|
                    0 <= i < times ==> #[trigger] r@[i]@ == cycled(
                        old(self)@,
                        names(wallpapers@),
                        (i + 1) as nat,
                    ).current
            },
            wallpapers.len() > 0 && !old(self)@.random && distinct_cycle_start(
                old(self)@,
                names(wallpapers@),
            ) && times <= wallpapers.len() ==> names(r@).no_duplicates(),
    {
        let mut shown: Vec<String> = Vec::new();
        if wallpapers.len() == 0 {
            return shown;
        }
        let ghost s0 = self@;
        let ghost files = names(wallpapers@);
        let mut k: usize = 0;
        while k < times
            invariant
                k <= times,
                wallpapers.len() > 0,
                files == names(wallpapers@),
                shown@.len() == k,
                self@.random == s0.random,
                self@.directory == s0.directory,
                self@.recursive == s0.recursive,
                self@.duration == s0.duration,
                k == 0 ==> self@ == s0,
                k > 0 ==> shown@[0]@ == s0.next,
                k > 0 ==> self@.index < wallpapers.len() && self@.next == files[self@.index as int],
                !s0.random ==> self@ == cycled(s0, files, k as nat),
                !s0.random ==> forall|i: int|
                    0 <= i < k ==> #[trigger] shown@[i]@ == cycled(s0, files, (i + 1) as nat).current,
            decreases times - k,
        {
            let c = self.cycle(wallpapers);
            match c {
                Ok(w) => {
                    shown.push(w);
                },
                Err(_) => {},
            }
            k = k + 1;
        }
        proof {
            if !s0.random && distinct_cycle_start(s0, files) && times <= files.len() {
                lemma_ordered_cycles_distinct(s0, files);
                let ns = names(shown@);
                assert forall|a: int, b: int|
                    0 <= a < ns.len() && 0 <= b < ns.len() && a != b implies ns[a] != ns[b] by {
                    assert(ns[a] == shown@[a]@);
                    assert(ns[b] == shown@[b]@);
                    if a < b {
                        assert(cycled(s0, files, (a + 1) as nat).current != cycled(
                            s0,
                            files,
                            (b + 1) as nat,
                        ).current);
                    } else {
                        assert(cycled(s0, files, (b + 1) as nat).current != cycled(
                            s0,
                            files,
                            (a + 1) as nat,
                        ).current);
                    }
                }
            }
        }
        shown
    }
}

/// The state after `k` ordered cycles over `files`.
pub open spec fn cycled(s: ServerView, files: Seq<Seq<char>>, k: nat) -> ServerView
    decreases k,
{
    if k == 0 {
        s
    } else {
        cycle_view(cycled(s, files, (k - 1) as nat), files)
    }
}

/// A listing of more than one distinct name, with the queued wallpaper at
/// the recorded position or just after it: the state `new` and `set_dir`
/// leave, and that ordered cycles keep.
pub open spec fn distinct_cycle_start(s: ServerView, files: Seq<Seq<char>>) -> bool {
    &&& files.len() > 1
    &&& files.no_duplicates()
    &&& s.index < files.len()
    &&& (files[s.index as int] == s.next || files[(s.index as int + 1) % (files.len() as int)] == s.next)
}

/// The state `new` leaves in order, over distinct names, is a distinct
/// cycling start.
pub proof fn lemma_ordered_start(s: ServerView, files: Seq<Seq<char>>)
    requires
        files.len() > 1,
        files.no_duplicates(),
        s.index == 0,
        s.current == files[0],
        s.next == files[advance(files, files[0], 1int % (files.len() as int), files.len() as nat)],
    ensures
        distinct_cycle_start(s, files),
{
    vstd::arithmetic::div_mod::lemma_small_mod(1, files.len() as nat);
    assert(files[1] != files[0]);
    assert(advance(files, files[0], 1, files.len() as nat) == 1);
}

proof fn lemma_successor_differs(p: int, n: int)
    requires
        0 <= p < n,
        n > 1,
    ensures
        (p + 1) % n != p,
        0 <= (p + 1) % n < n,
{
    if p + 1 < n {
        vstd::arithmetic::div_mod::lemma_small_mod((p + 1) as nat, n as nat);
    } else {
        vstd::arithmetic::div_mod::lemma_mod_self_0(n);
    }
}

/// One ordered cycle from a state whose queued wallpaper is entry `p`, at
/// the recorded position or just after it.
proof fn lemma_cycle_step(t: ServerView, files: Seq<Seq<char>>, p: int)
    requires
        files.len() > 1,
        files.no_duplicates(),
        0 <= p < files.len(),
        t.index < files.len(),
        files[p] == t.next,
        t.index == p || (t.index as int + 1) % (files.len() as int) == p,
    ensures
        cycle_view(t, files).current == files[p],
        cycle_view(t, files).index as int == (p + 1) % (files.len() as int),
        cycle_view(t, files).next == files[(p + 1) % (files.len() as int)],
{
    let n = files.len() as int;
    vstd::arithmetic::div_mod::lemma_small_mod(t.index, n as nat);
    lemma_successor_differs(p, n);
    let q = (p + 1) % n;
    assert(files[q] != t.next);
    if t.index == p {
        assert(cycle_start(t, n) == q);
    } else {
        assert(cycle_start(t, n) == p);
        assert(advance(files, t.next, q, (n - 1) as nat) == q);
    }
}

proof fn lemma_cycled_positions(s: ServerView, files: Seq<Seq<char>>, p: int, k: nat)
    requires
        distinct_cycle_start(s, files),
        0 <= p < files.len(),
        files[p] == s.next,
        s.index == p || (s.index as int + 1) % (files.len() as int) == p,
        k >= 1,
    ensures
        cycled(s, files, k).index as int == (p + k as int) % (files.len() as int),
        cycled(s, files, k).next == files[(p + k as int) % (files.len() as int)],
        cycled(s, files, k).current == files[(p + k as int - 1) % (files.len() as int)],
    decreases k,
{
    let n = files.len() as int;
    if k == 1 {
        lemma_cycle_step(s, files, p);
        vstd::arithmetic::div_mod::lemma_small_mod(p as nat, n as nat);
    } else {
        lemma_cycled_positions(s, files, p, (k - 1) as nat);
        let t = cycled(s, files, (k - 1) as nat);
        let x = p + k as int - 1;
        vstd::arithmetic::div_mod::lemma_mod_bound(x, n);
        lemma_cycle_step(t, files, x % n);
        vstd::arithmetic::div_mod::lemma_add_mod_noop(x, 1, n);
        vstd::arithmetic::div_mod::lemma_mod_twice(x, n);
        vstd::arithmetic::div_mod::lemma_small_mod(1, n as nat);
        assert((x % n + 1) % n == (x + 1) % n);
    }
}

/// From a distinct cycling start, as many ordered cycles as there are names
/// show that many different wallpapers before any repeats.
pub proof fn lemma_ordered_cycles_distinct(s: ServerView, files: Seq<Seq<char>>)
    requires
        distinct_cycle_start(s, files),
    ensures
        forall|a: nat, b: nat|
            1 <= a < b <= files.len() ==> #[trigger] cycled(s, files, a).current != #[trigger] cycled(
                s,
                files,
                b,
            ).current,
{
    let n = files.len() as int;
    let p = if files[s.index as int] == s.next {
        s.index as int
    } else {
        (s.index as int + 1) % n
    };
    vstd::arithmetic::div_mod::lemma_mod_bound(s.index as int + 1, n);
    assert forall|a: nat, b: nat| 1 <= a < b <= files.len() implies #[trigger] cycled(
        s,
        files,
        a,
    ).current != #[trigger] cycled(s, files, b).current by {
        lemma_cycled_positions(s, files, p, a);
        lemma_cycled_positions(s, files, p, b);
        let x = p + a as int - 1;
        let y = p + b as int - 1;
        vstd::arithmetic::div_mod::lemma_mod_equivalence(y, x, n);
        vstd::arithmetic::div_mod::lemma_small_mod((y - x) as nat, n as nat);
        assert(x % n != y % n);
        vstd::arithmetic::div_mod::lemma_mod_bound(x, n);
        vstd::arithmetic::div_mod::lemma_mod_bound(y, n);
    }
}

/// The commands a client can send, named by the `WallpaperControl` header.
#[derive(Debug, Clone, Copy, PartialEq, Eq, Structural)]
pub enum Command {
    SetWp,
    GetWp,
    Next,
    GetDir,
    SetDir,
    Ping,
    Kill,
}

/// The command an upper-case verb names.
pub open spec fn command_of(verb: Seq<char>) -> Option<Command> {
    if verb == "SETWP"@ {
        Some(Command::SetWp)
    } else if verb == "GETWP"@ {
        Some(Command::GetWp)
    } else if verb == "NEXT"@ {
        Some(Command::Next)
    } else if verb == "GETDIR"@ {
        Some(Command::GetDir)
    } else if verb == "SETDIR"@ {
        Some(Command::SetDir)
    } else if verb == "PING"@ {
        Some(Command::Ping)
    } else if verb == "KILL"@ {
        Some(Command::Kill)
    } else {
        None
    }
}

fn same_text(a: &str, b: &str) -> (r: bool)
    ensures
        r == (a@ == b@),
{
    String::from_str(a) == String::from_str(b)
}

/// What `str::to_uppercase` returns for a string.
pub uninterp spec fn upper_of(s: Seq<char>) -> Seq<char>;

/// Relies on `str::to_uppercase`: the string in upper case.
#[verifier::external_body]
fn uppercase(s: &str) -> (r: String)
    ensures
        r@ == upper_of(s@),
{
    s.to_uppercase()
}

impl Command {
    /// The command an upper-case verb names.
    pub fn parse(verb: &str) -> (r: Option<Command>)
        ensures
            r == command_of(verb@),
    {
        if same_text(verb, "SETWP") {
            Some(Command::SetWp)
        } else if same_text(verb, "GETWP") {
            Some(Command::GetWp)
        } else if same_text(verb, "NEXT") {
            Some(Command::Next)
        } else if same_text(verb, "GETDIR") {
            Some(Command::GetDir)
        } else if same_text(verb, "SETDIR") {
            Some(Command::SetDir)
        } else if same_text(verb, "PING") {
            Some(Command::Ping)
        } else if same_text(verb, "KILL") {
            Some(Command::Kill)
        } else {
            None
        }
    }

    /// The command a verb names, in any letter case.
    pub fn from_verb(verb: &str) -> (r: Option<Command>)
        ensures
            r == command_of(upper_of(verb@)),
    {
        let upper = uppercase(verb);
        Command::parse(upper.as_str())
    }
}

/// A request to cycle through another directory.
pub struct DirectoryRequest {
    pub path: String,
    pub recursive: bool,
    pub random: bool,
}

pub open spec fn newline() -> Seq<char> {
    seq!['\n']
}

/// The three fields of a `SETDIR` body: recursive flag, random flag and
/// path, split at the first two newlines.
pub open spec fn set_dir_fields(b: Seq<char>) -> Option<(Seq<char>, Seq<char>, Seq<char>)> {
    let i = find(b, newline());
    if i < 0 || i + 1 > b.len() {
        None
    } else {
        let rest = b.subrange(i + 1, b.len() as int);
        let j = find(rest, newline());
        if j < 0 || j + 1 > rest.len() {
            None
        } else {
            Some((b.subrange(0, i), rest.subrange(0, j), rest.subrange(j + 1, rest.len() as int)))
        }
    }
}

/// Reads a `SETDIR` body `<recursive>\n<random>\n<path>`; a flag is set when
/// its field is not empty.
pub fn parse_set_dir(body: &str) -> (r: Option<DirectoryRequest>)
    ensures
        match set_dir_fields(body@) {
            None => r is None,
            Some(f) => r is Some && r->Some_0.path@ == f.2 && r->Some_0.recursive == (f.0.len()
                > 0) && r->Some_0.random == (f.1.len() > 0),
        },
{
    let t = chars_of(body);
    let nl = vec!['\n'];
    assert(nl@ =~= newline());
    assert(t@.subrange(0, t@.len() as int) =~= t@);
    let i = match find_in(&t, 0, t.len(), &nl) {
        Some(i) => i,
        None => {
            return None;
        },
    };
    proof {
        lemma_find_from_found(t@, newline(), 0);
    }
    let ghost rest = t@.subrange(i + 1, t@.len() as int);
    let j = match find_in(&t, i + 1, t.len(), &nl) {
        Some(j) => j,
        None => {
            return None;
        },
    };
    proof {
        lemma_find_from_found(rest, newline(), 0);
    }
    let path = slice_string(body, j + 1, t.len());
    assert(path@ =~= rest.subrange(j - i, rest.len() as int));
    assert(rest.subrange(0, j - i - 1) =~= t@.subrange(i + 1, j as int));
    Some(DirectoryRequest { path, recursive: i > 0, random: j > i + 1 })
}

/// Mathematical model of what handling a request asks of the caller.
pub ghost enum StepView {
    Reply(PacketView),
    Stop(PacketView),
    ListDirectory(Seq<char>, bool, bool),
}

/// What handling a request asks of the caller: send a reply; send a reply
/// and stop serving; or list a directory and hand the listing to
/// [`WallpaperServer::set_dir`].
pub enum Step {
    Reply(Packet),
    Stop(Packet),
    ListDirectory(DirectoryRequest),
}

impl View for Step {
    type V = StepView;

    open spec fn view(&self) -> StepView {
        match self {
            Step::Reply(p) => StepView::Reply(p@),
            Step::Stop(p) => StepView::Stop(p@),
            Step::ListDirectory(d) => StepView::ListDirectory(d.path@, d.recursive, d.random),
        }
    }
}

/// A 200 response.
pub open spec fn ok_view(body: Seq<char>) -> PacketView {
    response_view(200, body)
}

/// A 400 response.
pub open spec fn rejected_view(body: Seq<char>) -> PacketView {
    response_view(400, body)
}

/// The new state and the step for a command with its request body.
pub open spec fn command_step(s: ServerView, c: Command, body: Seq<char>) -> (ServerView, StepView) {
    match c {
        Command::SetWp => (
            ServerView { next: body, wake: true, ..s },
            StepView::Reply(ok_view("Updated wallpaper to "@ + body)),
        ),
        Command::GetWp => (s, StepView::Reply(ok_view(s.current))),
        Command::Next => (
            ServerView { wake: true, ..s },
            StepView::Reply(ok_view("Cycled wallpaper to "@ + s.current)),
        ),
        Command::GetDir => (s, StepView::Reply(ok_view(s.directory))),
        Command::SetDir => match set_dir_fields(body) {
            None => (s, StepView::Reply(rejected_view("Invalid request format"@))),
            Some(f) => (s, StepView::ListDirectory(f.2, f.0.len() > 0, f.1.len() > 0)),
        },
        Command::Ping => (s, StepView::Reply(ok_view("pong"@))),
        Command::Kill => (s, StepView::Stop(ok_view("Stopping server..."@))),
    }
}

/// The name of the header that carries the command.
pub open spec fn control_header() -> Seq<char> {
    "WallpaperControl"@
}

/// The new state and the step for a request, or for a failure to read one.
pub open spec fn request_step(s: ServerView, buffer: Option<Seq<u8>>) -> (ServerView, StepView) {
    match buffer {
        None => (s, StepView::Reply(response_view(300, "Internal server error"@))),
        Some(b) => match decode_bytes(b) {
            Err(_) => (s, StepView::Reply(rejected_view("Request has bad format"@))),
            Ok(p) => match header_value(p.headers, control_header()) {
                None => (s, StepView::Reply(rejected_view("Missing required headers"@))),
                Some(v) => match command_of(upper_of(v)) {
                    None => (s, StepView::Reply(rejected_view("Invalid request!"@))),
                    Some(c) => command_step(s, c, p.body),
                },
            },
        },
    }
}

/// A reply body that shows a daemon is alive: `pong`, give or take
/// surrounding whitespace. A daemon starting up uses it to tell a live
/// server on the socket from a stale socket file.
pub fn answers_pong(body: &str) -> (r: bool)
    ensures
        r == (trim_of(body@) == "pong"@),
{
    same_text(trim_str(body).as_str(), "pong")
}

fn joined(a: &str, b: &str) -> (r: String)
    ensures
        r@ == a@ + b@,
{
    let mut r = String::from_str(a);
    r.append(b);
    r
}

impl WallpaperServer {
    /// Queues `value` as the next wallpaper and raises the wake flag.
    pub fn set_wp(&mut self, value: String) -> (r: Packet)
        ensures
            (final(self)@, StepView::Reply(r@)) == command_step(
                old(self)@,
                Command::SetWp,
                value@,
            ),
    {
        let r = response(200, joined("Updated wallpaper to ", value.as_str()).as_str());
        self.data.next_wallpaper = value;
        self.wake = true;
        r
    }

    /// Reports the current wallpaper.
    pub fn get_wp(&self) -> (r: Packet)
        ensures
            (self@, StepView::Reply(r@)) == command_step(self@, Command::GetWp, seq![]),
    {
        response(200, self.data.current_wallpaper.as_str())
    }

    /// Raises the wake flag so that the cycling loop moves on now; reports
    /// the wallpaper current before that cycle.
    pub fn next(&mut self) -> (r: Packet)
        ensures
            (final(self)@, StepView::Reply(r@)) == command_step(old(self)@, Command::Next, seq![]),
    {
        let r = response(
            200,
            joined("Cycled wallpaper to ", self.data.current_wallpaper.as_str()).as_str(),
        );
        self.wake = true;
        r
    }

    /// Reports the wallpaper directory.
    pub fn get_dir(&self) -> (r: Packet)
        ensures
            (self@, StepView::Reply(r@)) == command_step(self@, Command::GetDir, seq![]),
    {
        response(200, self.data.directory.as_str())
    }

    /// Answers a liveness probe.
    pub fn ping(&self) -> (r: Packet)
        ensures
            (self@, StepView::Reply(r@)) == command_step(self@, Command::Ping, seq![]),
    {
        response(200, "pong")
    }

    /// The reply sent before the daemon stops.
    pub fn kill(&self) -> (r: Packet)
        ensures
            (self@, StepView::Stop(r@)) == command_step(self@, Command::Kill, seq![]),
    {
        response(200, "Stopping server...")
    }

    /// Carries out a command with its request body.
    pub fn dispatch(&mut self, command: Command, body: String) -> (r: Step)
        ensures
            (final(self)@, r@) == command_step(old(self)@, command, body@),
    {
        match command {
            Command::SetWp => Step::Reply(self.set_wp(body)),
            Command::GetWp => Step::Reply(self.get_wp()),
            Command::Next => Step::Reply(self.next()),
            Command::GetDir => Step::Reply(self.get_dir()),
            Command::SetDir => match parse_set_dir(body.as_str()) {
                Some(d) => Step::ListDirectory(d),
                None => Step::Reply(response(400, "Invalid request format")),
            },
            Command::Ping => Step::Reply(self.ping()),
            Command::Kill => Step::Stop(self.kill()),
        }
    }

    /// Handles the bytes of one request, or `None` when they could not be
    /// read: decodes the packet, finds the command and carries it out.
    pub fn handle_request(&mut self, buffer: Option<Vec<u8>>) -> (r: Step)
        ensures
            (final(self)@, r@) == request_step(
                old(self)@,
                match buffer {
                    Some(b) => Some(b@),
                    None => None,
                },
            ),
    {
        let b = match buffer {
            Some(b) => b,
            None => {
                return Step::Reply(response(300, "Internal server error"));
            },
        };
        let request = match decode_packet(b) {
            Ok(p) => p,
            Err(_) => {
                return Step::Reply(response(400, "Request has bad format"));
            },
        };
        let verb = match request.get_header("WallpaperControl") {
            Some(v) => v,
            None => {
                return Step::Reply(response(400, "Missing required headers"));
            },
        };
        match Command::from_verb(verb.as_str()) {
            Some(c) => self.dispatch(c, request.body),
            None => Step::Reply(response(400, "Invalid request!")),
        }
    }

    /// Commits a directory change once its listing is known. On a listing
    /// error nothing changes and the error is reported with status 400.
    /// Otherwise the directory and options are taken over, the first entry
    /// (a random one with `random`) is queued, and the wake flag is raised
    /// so that it shows at once; an empty listing queues nothing.
    pub fn set_dir(&mut self, request: DirectoryRequest, listing: Result<Vec<String>, String>) -> (r:
        Packet)
        ensures
            match listing {
                Err(e) => final(self)@ == old(self)@ && r@ == rejected_view(
                    "There was an error setting the directory: "@ + e@,
                ),
                Ok(files) => {
                    &&& r@ == ok_view("Wonderwall will now cycle through "@ + request.path@)
                    &&& final(self)@.duration == old(self)@.duration
                    &&& final(self)@.directory == request.path@
                    &&& final(self)@.recursive == request.recursive
                    &&& final(self)@.random == request.random
                    &&& final(self)@.current == old(self)@.current
                    &&& files.len() == 0 ==> final(self)@.next == old(self)@.next
                        && final(self)@.index == old(self)@.index && final(self)@.wake
                        == old(self)@.wake
                    &&& files.len() > 0 ==> {
                        &&& final(self)@.wake
                        &&& final(self)@.index < files.len()
                        &&& final(self)@.next == names(files@)[final(self)@.index as int]
                        &&& !request.random ==> final(self)@.index == 0
                    }
                },
            },
    {
        match listing {
            Err(e) => response(
                400,
                joined("There was an error setting the directory: ", e.as_str()).as_str(),
            ),
            Ok(files) => {
                let r = response(
                    200,
                    joined("Wonderwall will now cycle through ", request.path.as_str()).as_str(),
                );
                let n = files.len();
                if n > 0 {
                    let k = if request.random {
                        random_below(n)
                    } else {
                        0
                    };
                    assert(names(files@)[k as int] == files@[k as int]@);
                    self.data.next_wallpaper = files[k].clone();
                    self.data.index = k;
                    self.wake = true;
                }
                self.data.directory = request.path;
                self.data.recursive = request.recursive;
                self.data.random = request.random;
                r
            },
        }
    }
}

} // verus!
